use vstd::prelude::*;

verus! {

/// A single-qubit Pauli operator in the symplectic representation: a pair of
/// bits over GF(2), with `(x, z)` encoding `(0,0) = I`, `(0,1) = Z`,
/// `(1,0) = X`, `(1,1) = Y`.
#[derive(PartialEq, Eq, Structural, Clone, Copy, Debug)]
pub struct Pauli {
    pub x: bool,
    pub z: bool,
}

/// The identity unit.
pub open spec fn spec_i() -> Pauli {
    Pauli { x: false, z: false }
}

/// The Z unit.
pub open spec fn spec_z() -> Pauli {
    Pauli { x: false, z: true }
}

/// The X unit.
pub open spec fn spec_x() -> Pauli {
    Pauli { x: true, z: false }
}

/// The Y unit.
pub open spec fn spec_y() -> Pauli {
    Pauli { x: true, z: true }
}

#[verifier::when_used_as_spec(spec_i)]
#[allow(non_snake_case)]
pub fn I() -> (r: Pauli)
    ensures
        r == spec_i(),
{
    Pauli { x: false, z: false }
}

#[verifier::when_used_as_spec(spec_z)]
#[allow(non_snake_case)]
pub fn Z() -> (r: Pauli)
    ensures
        r == spec_z(),
{
    Pauli { x: false, z: true }
}

#[verifier::when_used_as_spec(spec_x)]
#[allow(non_snake_case)]
pub fn X() -> (r: Pauli)
    ensures
        r == spec_x(),
{
    Pauli { x: true, z: false }
}

#[verifier::when_used_as_spec(spec_y)]
#[allow(non_snake_case)]
pub fn Y() -> (r: Pauli)
    ensures
        r == spec_y(),
{
    Pauli { x: true, z: true }
}

impl Pauli {
    /// What the Hadamard gate does to a unit: swap the two bits.
    pub open spec fn spec_hadamard(self) -> Pauli {
        Pauli { x: self.z, z: self.x }
    }

    /// What the phase gate does to a unit: xor the X bit into the Z bit.
    pub open spec fn spec_phase(self) -> Pauli {
        Pauli { x: self.x, z: self.x != self.z }
    }

    /// What the CNOT gate does to a (control, target) pair of units:
    /// xor the target's Z bit into the control's, and the control's X bit
    /// into the target's.
    pub open spec fn spec_cnot(self, target: Pauli) -> (Pauli, Pauli) {
        (
            Pauli { x: self.x, z: self.z != target.z },
            Pauli { x: self.x != target.x, z: target.z },
        )
    }

    /// H(a)
    pub fn hadamard(&self) -> (r: Self)
        ensures
            r == self.spec_hadamard(),
    {
        Self { x: self.z, z: self.x }
    }

    /// S(a)
    pub fn phase(&self) -> (r: Self)
        ensures
            r == self.spec_phase(),
    {
        Self { x: self.x, z: self.x ^ self.z }
    }

    /// CX(a, b), with `self` the control and `target` the target.
    pub fn cnot(&self, target: &Self) -> (r: (Self, Self))
        ensures
            r == self.spec_cnot(*target),
    {
        (
            Self { z: self.z ^ target.z, x: self.x },
            Self { x: self.x ^ target.x, z: target.z },
        )
    }

    /// Build a unit from its two symplectic bits.
    pub fn new(x: bool, z: bool) -> (r: Self)
        ensures
            r == (Pauli { x, z }),
    {
        Self { x, z }
    }

    /// Draw a unit uniformly at random: two independent coin flips.
    pub fn gen_random() -> Self {
        Self { x: random_bool(), z: random_bool() }
    }
}

/// Relies on fastrand::bool: one draw from the thread-local generator.
/// Nothing can be promised of a random value.
#[verifier::external_body]
pub(crate) fn random_bool() -> bool {
    fastrand::bool()
}

/// Law: the Hadamard bit transform is an involution.
pub proof fn lemma_hadamard_involution(p: Pauli)
    ensures
        p.spec_hadamard().spec_hadamard() == p,
{
}

/// Law: the phase bit transform is an involution at the bit level.
pub proof fn lemma_phase_involution(p: Pauli)
    ensures
        p.spec_phase().spec_phase() == p,
{
}

/// Law: the CNOT bit transform is its own inverse.
pub proof fn lemma_cnot_involution(a: Pauli, b: Pauli)
    ensures
        ({
            let (a1, b1) = a.spec_cnot(b);
            a1.spec_cnot(b1) == (a, b)
        }),
{
}

} // verus!
