use vstd::prelude::*;

verus! {

/// One Clifford instruction; each index names a qubit position.
#[derive(Clone, Copy, PartialEq, Eq, Structural, Debug)]
pub enum Gate {
    Hadamard(usize),
    Phase(usize),
    CNot(usize, usize),
    Swap(usize, usize),
}

impl Gate {
    /// Well-formed relative to an operator of `n` qubits: every index is in
    /// range, and the two indices of a two-qubit gate are distinct.
    pub open spec fn wf(self, n: nat) -> bool {
        match self {
            Gate::Hadamard(a) => a < n,
            Gate::Phase(a) => a < n,
            Gate::CNot(a, b) => a < n && b < n && a != b,
            Gate::Swap(a, b) => a < n && b < n && a != b,
        }
    }
}

} // verus!
