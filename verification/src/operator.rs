use vstd::prelude::*;

use crate::gate::Gate;
use crate::pauli::{random_bool, spec_i, spec_x, spec_y, spec_z, Pauli, I, X, Y, Z};

verus! {

/// The mathematical model of a signed multi-qubit Pauli operator: the
/// ordered units and the global sign bit (`false` is `+`, `true` is `-`).
pub struct OpModel {
    pub units: Seq<Pauli>,
    pub sign: bool,
}

impl OpModel {
    /// The single-qubit sign rule: conjugation by H or S flips the sign
    /// exactly where a Y stood beforehand.
    pub open spec fn apply_hadamard(self, i: int) -> OpModel {
        OpModel {
            units: self.units.update(i, self.units[i].spec_hadamard()),
            sign: self.sign != (self.units[i] == spec_y()),
        }
    }

    pub open spec fn apply_phase(self, i: int) -> OpModel {
        OpModel {
            units: self.units.update(i, self.units[i].spec_phase()),
            sign: self.sign != (self.units[i] == spec_y()),
        }
    }

    /// Conjugation by CNOT flips the sign exactly when the control unit has
    /// its X bit set, the target unit its Z bit set, and the target's X bit
    /// equals the control's Z bit.
    pub open spec fn apply_cnot(self, a: int, b: int) -> OpModel {
        let c = self.units[a];
        let t = self.units[b];
        OpModel {
            units: self.units.update(a, c.spec_cnot(t).0).update(b, c.spec_cnot(t).1),
            sign: self.sign != (c.x && t.z && (t.x == c.z)),
        }
    }

    /// A swap is realized as three CNOTs.
    pub open spec fn apply_gate(self, g: Gate) -> OpModel {
        match g {
            Gate::Hadamard(a) => self.apply_hadamard(a as int),
            Gate::Phase(a) => self.apply_phase(a as int),
            Gate::CNot(a, b) => self.apply_cnot(a as int, b as int),
            Gate::Swap(a, b) => self.apply_cnot(a as int, b as int).apply_cnot(
                b as int,
                a as int,
            ).apply_cnot(a as int, b as int),
        }
    }

    /// Replay a whole circuit, first gate first.
    pub open spec fn apply_gates(self, gs: Seq<Gate>) -> OpModel
        decreases gs.len(),
    {
        if gs.len() == 0 {
            self
        } else {
            self.apply_gate(gs[0]).apply_gates(gs.drop_first())
        }
    }
}

/// A signed n-qubit Pauli string: one unit per qubit plus a global sign bit.
#[derive(PartialEq, Eq, Clone, Debug)]
pub struct PauliOperator {
    pub ops: Vec<Pauli>,
    pub sign: bool,
}

impl View for PauliOperator {
    type V = OpModel;

    open spec fn view(&self) -> OpModel {
        OpModel { units: self.ops@, sign: self.sign }
    }
}

impl PauliOperator {
    /// Apply the Hadamard gate to a single qubit.
    pub fn hadamard(&mut self, a: usize)
        requires
            a < old(self).ops.len(),
        ensures
            final(self)@ == old(self)@.apply_hadamard(a as int),
    {
        self.sign ^= self.ops[a] == Y();
        let p = self.ops[a].hadamard();
        self.ops.set(a, p);
    }

    /// Apply the phase gate to a single qubit.
    pub fn phase(&mut self, a: usize)
        requires
            a < old(self).ops.len(),
        ensures
            final(self)@ == old(self)@.apply_phase(a as int),
    {
        self.sign ^= self.ops[a] == Y();
        let p = self.ops[a].phase();
        self.ops.set(a, p);
    }

    /// Apply the CNOT gate to two qubits, `a` the control and `b` the target.
    pub fn cnot(&mut self, a: usize, b: usize)
        requires
            a < old(self).ops.len(),
            b < old(self).ops.len(),
            a != b,
        ensures
            final(self)@ == old(self)@.apply_cnot(a as int, b as int),
    {
        let ca = self.ops[a];
        let tb = self.ops[b];
        self.sign ^= ca.x && tb.z && (tb.x ^ ca.z ^ true);
        let (ra, rb) = ca.cnot(&tb);
        self.ops.set(a, ra);
        self.ops.set(b, rb);
    }

    /// Apply one gate.
    pub fn apply(&mut self, gate: &Gate)
        requires
            gate.wf(old(self).ops.len() as nat),
        ensures
            final(self)@ == old(self)@.apply_gate(*gate),
    {
        match gate {
            Gate::Hadamard(a) => self.hadamard(*a),
            Gate::Phase(a) => self.phase(*a),
            Gate::CNot(a, b) => self.cnot(*a, *b),
            Gate::Swap(a, b) => {
                self.cnot(*a, *b);
                self.cnot(*b, *a);
                self.cnot(*a, *b);
            },
        }
    }
}

/// True when the two units anticommute: the symplectic form
/// `x_p z_q + z_p x_q` over GF(2) is 1. Equivalently, the units differ and
/// neither is the identity.
pub open spec fn anti(p: Pauli, q: Pauli) -> bool {
    (p.x && q.z) != (p.z && q.x)
}

/// The number of positions at which the two operators' units anticommute.
pub open spec fn anti_count(a: Seq<Pauli>, b: Seq<Pauli>) -> nat
    decreases a.len(),
{
    if a.len() == 0 {
        0
    } else {
        anti_count(a.drop_last(), b.drop_last()) + if anti(a.last(), b.last()) {
            1nat
        } else {
            0nat
        }
    }
}

/// Two equal-length operators commute exactly when the number of
/// anticommuting positions is even.
pub open spec fn spec_commutes(a: Seq<Pauli>, b: Seq<Pauli>) -> bool {
    anti_count(a, b) % 2 == 0
}

/// An operator whose every unit is the identity.
pub open spec fn all_identity(a: Seq<Pauli>) -> bool {
    forall|k: int| 0 <= k < a.len() ==> a[k] == spec_i()
}

impl PauliOperator {
    /// Returns true if this operator commutes with the other (PQ = QP)
    /// and false if they anticommute (PQ = -QP).
    pub fn commutes(&self, other: &Self) -> (r: bool)
        requires
            self.ops.len() == other.ops.len(),
        ensures
            r == spec_commutes(self.ops@, other.ops@),
    {
        let mut total: usize = 0;
        let n = self.ops.len();
        let mut i: usize = 0;
        while i < n
            invariant
                i <= n,
                total <= i,
                n == self.ops.len(),
                n == other.ops.len(),
                total == anti_count(self.ops@.take(i as int), other.ops@.take(i as int)),
            decreases n - i,
        {
            // two units anticommute iff they're different and neither is the identity
            if self.ops[i] != other.ops[i] && self.ops[i] != I() && other.ops[i] != I() {
                total += 1;
            }
            proof {
                let sa = self.ops@;
                let sb = other.ops@;
                assert(sa.take(i + 1).drop_last() =~= sa.take(i as int));
                assert(sb.take(i + 1).drop_last() =~= sb.take(i as int));
                assert(sa.take(i + 1).last() == sa[i as int]);
            }
            i += 1;
        }
        proof {
            assert(self.ops@.take(n as int) =~= self.ops@);
            assert(other.ops@.take(n as int) =~= other.ops@);
        }
        total % 2 == 0
    }
}

proof fn lemma_anti_count_symmetric(a: Seq<Pauli>, b: Seq<Pauli>)
    requires
        a.len() == b.len(),
    ensures
        anti_count(a, b) == anti_count(b, a),
    decreases a.len(),
{
    if a.len() > 0 {
        lemma_anti_count_symmetric(a.drop_last(), b.drop_last());
    }
}

/// Law: commutation testing is symmetric in its two operands.
pub proof fn lemma_commutes_symmetric(a: Seq<Pauli>, b: Seq<Pauli>)
    requires
        a.len() == b.len(),
    ensures
        spec_commutes(a, b) == spec_commutes(b, a),
{
    lemma_anti_count_symmetric(a, b);
}

/// 1 when the two units anticommute, else 0.
pub open spec fn anti_contrib(p: Pauli, q: Pauli) -> nat {
    if anti(p, q) {
        1nat
    } else {
        0nat
    }
}

/// Replacing one unit in each operator changes the commutation count by the
/// difference of that position's contributions.
pub(crate) proof fn lemma_anti_count_update(
    a: Seq<Pauli>,
    b: Seq<Pauli>,
    i: int,
    p: Pauli,
    q: Pauli,
)
    requires
        a.len() == b.len(),
        0 <= i < a.len(),
    ensures
        anti_count(a.update(i, p), b.update(i, q)) + anti_contrib(a[i], b[i]) == anti_count(a, b)
            + anti_contrib(p, q),
    decreases a.len(),
{
    let au = a.update(i, p);
    let bu = b.update(i, q);
    if i == a.len() - 1 {
        assert(au.drop_last() =~= a.drop_last());
        assert(bu.drop_last() =~= b.drop_last());
    } else {
        assert(au.drop_last() =~= a.drop_last().update(i, p));
        assert(bu.drop_last() =~= b.drop_last().update(i, q));
        lemma_anti_count_update(a.drop_last(), b.drop_last(), i, p, q);
    }
}

/// When no position from `j` on contributes, the commutation count is the
/// count over the first `j` positions alone.
pub(crate) proof fn lemma_anti_count_from(a: Seq<Pauli>, b: Seq<Pauli>, j: int)
    requires
        a.len() == b.len(),
        0 <= j <= a.len(),
        forall|k: int| j <= k < a.len() ==> !anti(a[k], b[k]),
    ensures
        anti_count(a, b) == anti_count(a.take(j), b.take(j)),
    decreases a.len() - j,
{
    if j == a.len() {
        assert(a.take(j) =~= a);
        assert(b.take(j) =~= b);
    } else {
        assert(a.drop_last().take(j) =~= a.take(j));
        assert(b.drop_last().take(j) =~= b.take(j));
        lemma_anti_count_from(a.drop_last(), b.drop_last(), j);
    }
}

/// When only position 0 can contribute, commutation is decided there alone.
pub(crate) proof fn lemma_anti_count_first(a: Seq<Pauli>, b: Seq<Pauli>)
    requires
        a.len() == b.len(),
        a.len() >= 1,
        forall|k: int| 1 <= k < a.len() ==> !anti(a[k], b[k]),
    ensures
        anti_count(a, b) == anti_contrib(a[0], b[0]),
{
    lemma_anti_count_from(a, b, 1);
    assert(a.take(1).drop_last() =~= Seq::<Pauli>::empty());
    assert(a.take(1).last() == a[0]);
    assert(b.take(1).last() == b[0]);
    assert(anti_count(a.take(1).drop_last(), b.take(1).drop_last()) == 0);
}

/// The canonical first pattern: X at qubit 0 and identity elsewhere.
pub open spec fn x_canonical(a: Seq<Pauli>) -> bool {
    a.len() >= 1 && a[0] == spec_x() && (forall|k: int| 1 <= k < a.len() ==> a[k] == spec_i())
}

/// The canonical second pattern: Z at qubit 0 and identity elsewhere.
pub open spec fn z_canonical(a: Seq<Pauli>) -> bool {
    a.len() >= 1 && a[0] == spec_z() && (forall|k: int| 1 <= k < a.len() ==> a[k] == spec_i())
}

/// Law: applying the Hadamard gate twice at the same qubit returns the
/// operator unchanged, sign included.
pub proof fn lemma_hadamard_twice(o: OpModel, i: int)
    requires
        0 <= i < o.units.len(),
    ensures
        o.apply_hadamard(i).apply_hadamard(i) == o,
{
    assert(o.apply_hadamard(i).apply_hadamard(i).units =~= o.units);
}

/// Law: three CNOTs exchange the two units and leave the sign unchanged,
/// for every pair of units and either sign, so a swap needs no sign rule of
/// its own.
pub proof fn lemma_swap_via_cnots(o: OpModel, a: int, b: int)
    requires
        0 <= a < o.units.len(),
        0 <= b < o.units.len(),
        a != b,
    ensures
        ({
            let r = o.apply_cnot(a, b).apply_cnot(b, a).apply_cnot(a, b);
            r.units == o.units.update(a, o.units[b]).update(b, o.units[a]) && r.sign == o.sign
        }),
{
    let r = o.apply_cnot(a, b).apply_cnot(b, a).apply_cnot(a, b);
    assert(r.units =~= o.units.update(a, o.units[b]).update(b, o.units[a]));
}

/// How many rejected draws the pair sampler tolerates before it returns the
/// fixed basis pair instead. Each round succeeds with probability at least
/// 1/4, so the bound is never reached in practice; it keeps the sampler
/// total.
const MAX_DRAWS: u64 = 0x1000_0000_0000_0000;

impl PauliOperator {
    /// Generate a (pseudo)random operator, which may be the identity; the
    /// sign is an independent coin flip.
    fn gen_random(n: usize) -> (r: Self)
        ensures
            r.ops.len() == n,
    {
        let mut ops: Vec<Pauli> = Vec::new();
        while ops.len() < n
            invariant
                ops.len() <= n,
            decreases n - ops.len(),
        {
            ops.push(Pauli::gen_random());
        }
        PauliOperator { ops, sign: random_bool() }
    }

    /// True when every unit is the identity.
    fn is_identity(&self) -> (r: bool)
        ensures
            r == all_identity(self.ops@),
    {
        let mut i: usize = 0;
        while i < self.ops.len()
            invariant
                i <= self.ops.len(),
                forall|k: int| 0 <= k < i ==> self.ops@[k] == spec_i(),
            decreases self.ops.len() - i,
        {
            if self.ops[i] != I() {
                return false;
            }
            i += 1;
        }
        true
    }

    /// The operator with X at qubit 0, identity elsewhere, and the given
    /// sign.
    fn x_basis(n: usize, sign: bool) -> (r: Self)
        requires
            n >= 1,
        ensures
            r.ops@.len() == n,
            x_canonical(r.ops@),
            r.sign == sign,
    {
        let mut ops: Vec<Pauli> = Vec::new();
        ops.push(X());
        while ops.len() < n
            invariant
                1 <= ops.len() <= n,
                ops@[0] == spec_x(),
                forall|k: int| 1 <= k < ops@.len() ==> ops@[k] == spec_i(),
            decreases n - ops.len(),
        {
            ops.push(I());
        }
        PauliOperator { ops, sign }
    }

    /// The operator with Z at qubit 0, identity elsewhere, and the given
    /// sign.
    fn z_basis(n: usize, sign: bool) -> (r: Self)
        requires
            n >= 1,
        ensures
            r.ops@.len() == n,
            z_canonical(r.ops@),
            r.sign == sign,
    {
        let mut ops: Vec<Pauli> = Vec::new();
        ops.push(Z());
        while ops.len() < n
            invariant
                1 <= ops.len() <= n,
                ops@[0] == spec_z(),
                forall|k: int| 1 <= k < ops@.len() ==> ops@[k] == spec_i(),
            decreases n - ops.len(),
        {
            ops.push(I());
        }
        PauliOperator { ops, sign }
    }

    /// Rejection sampling over any width down to a single qubit; shared by
    /// the public sampler and the circuit driver.
    pub(crate) fn gen_anticommuting_pair_any(n: usize) -> (r: (Self, Self))
        requires
            n >= 1,
        ensures
            r.0.ops@.len() == n,
            r.1.ops@.len() == n,
            !all_identity(r.0.ops@),
            !spec_commutes(r.0.ops@, r.1.ops@),
    {
        let mut tries: u64 = 0;
        // keep generating random operators until they anticommute
        while tries < MAX_DRAWS
            invariant
                true,
            decreases MAX_DRAWS - tries,
        {
            let a = Self::gen_random(n);
            if !a.is_identity() {
                // the first of the pair must not be the identity
                let b = Self::gen_random(n);
                if !a.commutes(&b) {
                    return (a, b);
                }
            }
            tries += 1;
        }
        // Never reached in practice: fall back to the anticommuting basis
        // pair, with independent random signs.
        let a = Self::x_basis(n, random_bool());
        let b = Self::z_basis(n, random_bool());
        proof {
            assert(forall|k: int| 1 <= k < n ==> !anti(a.ops@[k], b.ops@[k]));
            lemma_anti_count_first(a.ops@, b.ops@);
            assert(anti(a.ops@[0], b.ops@[0]));
            assert(a.ops@[0] != spec_i());
        }
        (a, b)
    }

    /// Generate two anticommuting operators of `n` qubits each, the first of
    /// which is never the all-identity operator.
    pub fn gen_anticommuting_pair(n: usize) -> (r: (Self, Self))
        requires
            n >= 2,
        ensures
            r.0.ops@.len() == n,
            r.1.ops@.len() == n,
            !all_identity(r.0.ops@),
            !spec_commutes(r.0.ops@, r.1.ops@),
    {
        Self::gen_anticommuting_pair_any(n)
    }

    /// Pad this operator on the left with identity units until it is
    /// `new_size` long, e.g. XZYI padded to 5 becomes IXZYI. Does nothing if
    /// `new_size <= self.len()`.
    pub fn left_pad(&mut self, new_size: usize)
        ensures
            final(self).sign == old(self).sign,
            old(self).ops@.len() >= new_size ==> final(self).ops@ == old(self).ops@,
            old(self).ops@.len() < new_size ==> ({
                &&& final(self).ops@.len() == new_size
                &&& (forall|k: int|
                    0 <= k < new_size - old(self).ops@.len() ==> final(self).ops@[k] == spec_i())
                &&& final(self).ops@.skip(new_size - old(self).ops@.len()) == old(self).ops@
            }),
    {
        while self.ops.len() < new_size
            invariant
                self.sign == old(self).sign,
                self.ops@.len() >= old(self).ops@.len(),
                self.ops@.len() <= new_size || self.ops@ == old(self).ops@,
                forall|k: int|
                    0 <= k < self.ops@.len() - old(self).ops@.len() ==> self.ops@[k] == spec_i(),
                self.ops@.skip(self.ops@.len() - old(self).ops@.len()) == old(self).ops@,
            decreases new_size - self.ops.len(),
        {
            let ghost prev = self.ops@;
            self.ops.insert(0, I());
            proof {
                assert(self.ops@.skip(self.ops@.len() - old(self).ops@.len()) =~= prev.skip(
                    prev.len() - old(self).ops@.len(),
                ));
            }
        }
    }
}

} // verus!
