//! Rank-1 Constraint Systems in sparse-matrix form.

use vstd::prelude::*;

verus! {

/// Every entry of a sparse row names a residue below `p` and a column below
/// `width`.
pub open spec fn row_ok(p: int, row: Seq<(u64, usize)>, width: int) -> bool {
    forall|k: int| 0 <= k < row.len()
        ==> (#[trigger] row[k]).0 < p && row[k].1 < width
}

/// Every row of a sparse matrix is in range.
pub open spec fn rows_ok(p: int, rows: Seq<Vec<(u64, usize)>>, width: int) -> bool {
    forall|i: int| 0 <= i < rows.len() ==> row_ok(p, (#[trigger] rows[i])@, width)
}

/// A Rank-1 Constraint System over the field of integers modulo `modulus`:
/// constraints (A·w) ∘ (B·w) = (C·w) over a witness vector w whose first
/// `num_instance` entries are the public inputs, index 0 by convention the
/// constant 1. Each matrix holds one sparse row of (coefficient, column)
/// pairs per constraint.
pub struct R1cs {
    pub modulus: u64,
    pub num_instance: usize,
    pub num_witness: usize,
    pub a: Vec<Vec<(u64, usize)>>,
    pub b: Vec<Vec<(u64, usize)>>,
    pub c: Vec<Vec<(u64, usize)>>,
}

impl R1cs {
    /// Public and private variables together: the length of the witness vector.
    pub open spec fn witness_size(self) -> int {
        self.num_instance + self.num_witness
    }

    /// One constraint per matrix row.
    pub open spec fn num_constraints(self) -> int {
        self.a.len() as int
    }

    pub open spec fn wf(self) -> bool {
        &&& self.modulus >= 2
        &&& self.num_instance >= 1
        &&& self.num_instance + self.num_witness <= usize::MAX
        &&& self.b.len() == self.a.len()
        &&& self.c.len() == self.a.len()
        &&& rows_ok(self.modulus as int, self.a@, self.witness_size())
        &&& rows_ok(self.modulus as int, self.b@, self.witness_size())
        &&& rows_ok(self.modulus as int, self.c@, self.witness_size())
    }
}

} // verus!
