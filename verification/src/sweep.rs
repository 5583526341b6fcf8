use vstd::prelude::*;

use crate::gate::Gate;
use crate::operator::{
    anti, anti_contrib, anti_count, lemma_anti_count_first, lemma_anti_count_from,
    lemma_anti_count_update, lemma_commutes_symmetric, lemma_swap_via_cnots, spec_commutes,
    x_canonical, z_canonical, OpModel, PauliOperator,
};
use crate::pauli::{spec_i, spec_x, Pauli, I, Z};

verus! {

/// How many units of the operator have their X bit set.
pub(crate) open spec fn x_weight(s: Seq<Pauli>) -> nat
    decreases s.len(),
{
    if s.len() == 0 {
        0
    } else {
        x_weight(s.drop_last()) + if s.last().x {
            1nat
        } else {
            0nat
        }
    }
}

proof fn lemma_x_weight_update(s: Seq<Pauli>, i: int, p: Pauli)
    requires
        0 <= i < s.len(),
    ensures
        x_weight(s.update(i, p)) + (if s[i].x {
            1nat
        } else {
            0nat
        }) == x_weight(s) + (if p.x {
            1nat
        } else {
            0nat
        }),
    decreases s.len(),
{
    let su = s.update(i, p);
    if i == s.len() - 1 {
        assert(su.drop_last() =~= s.drop_last());
    } else {
        assert(su.drop_last() =~= s.drop_last().update(i, p));
        lemma_x_weight_update(s.drop_last(), i, p);
    }
}

proof fn lemma_x_weight_zero(s: Seq<Pauli>)
    requires
        x_weight(s) == 0,
    ensures
        forall|k: int| 0 <= k < s.len() ==> !s[k].x,
    decreases s.len(),
{
    if s.len() > 0 {
        lemma_x_weight_zero(s.drop_last());
        assert forall|k: int| 0 <= k < s.len() implies !s[k].x by {
            if k < s.len() - 1 {
                assert(s.drop_last()[k] == s[k]);
            }
        }
    }
}

/// Replaying one more gate is replaying the circuit, then that gate.
proof fn lemma_apply_gates_push(o: OpModel, gs: Seq<Gate>, g: Gate)
    ensures
        o.apply_gates(gs.push(g)) == o.apply_gates(gs).apply_gate(g),
    decreases gs.len(),
{
    if gs.len() == 0 {
        assert(gs.push(g)[0] == g);
        assert(gs.push(g).drop_first() =~= Seq::<Gate>::empty());
        assert(o.apply_gate(g).apply_gates(Seq::<Gate>::empty()) == o.apply_gate(g));
        assert(o.apply_gates(gs) == o);
    } else {
        assert(gs.push(g)[0] == gs[0]);
        assert(gs.push(g).drop_first() =~= gs.drop_first().push(g));
        lemma_apply_gates_push(o.apply_gate(gs[0]), gs.drop_first(), g);
    }
}

/// Replaying a concatenation is replaying the parts in order.
proof fn lemma_apply_gates_append(o: OpModel, gs1: Seq<Gate>, gs2: Seq<Gate>)
    ensures
        o.apply_gates(gs1 + gs2) == o.apply_gates(gs1).apply_gates(gs2),
    decreases gs2.len(),
{
    if gs2.len() == 0 {
        assert(gs1 + gs2 =~= gs1);
    } else {
        lemma_apply_gates_append(o, gs1, gs2.drop_last());
        lemma_apply_gates_push(o, gs1 + gs2.drop_last(), gs2.last());
        assert((gs1 + gs2.drop_last()).push(gs2.last()) =~= gs1 + gs2);
        lemma_apply_gates_push(o.apply_gates(gs1), gs2.drop_last(), gs2.last());
        assert(gs2.drop_last().push(gs2.last()) =~= gs2);
    }
}

/// A CNOT applied to both operators preserves whether they commute: the
/// symplectic form is invariant under the shared conjugation.
#[verifier::rlimit(50)]
proof fn lemma_cnot_preserves_commutes(a: OpModel, b: OpModel, c: int, t: int)
    requires
        a.units.len() == b.units.len(),
        0 <= c < a.units.len(),
        0 <= t < a.units.len(),
        c != t,
    ensures
        spec_commutes(a.apply_cnot(c, t).units, b.apply_cnot(c, t).units) == spec_commutes(
            a.units,
            b.units,
        ),
{
    let pa = a.units[c];
    let ta = a.units[t];
    let pb = b.units[c];
    let tb = b.units[t];
    let a1 = a.units.update(c, pa.spec_cnot(ta).0);
    let b1 = b.units.update(c, pb.spec_cnot(tb).0);
    lemma_anti_count_update(a.units, b.units, c, pa.spec_cnot(ta).0, pb.spec_cnot(tb).0);
    lemma_anti_count_update(a1, b1, t, pa.spec_cnot(ta).1, pb.spec_cnot(tb).1);
    assert(a1[t] == ta);
    assert(b1[t] == tb);
    assert((anti_contrib(pa.spec_cnot(ta).0, pb.spec_cnot(tb).0) + anti_contrib(
        pa.spec_cnot(ta).1,
        pb.spec_cnot(tb).1,
    )) % 2 == (anti_contrib(pa, pb) + anti_contrib(ta, tb)) % 2);
}

/// Any gate applied to both operators preserves whether they commute.
proof fn lemma_gate_preserves_commutes(a: OpModel, b: OpModel, g: Gate)
    requires
        a.units.len() == b.units.len(),
        g.wf(a.units.len() as nat),
    ensures
        spec_commutes(a.apply_gate(g).units, b.apply_gate(g).units) == spec_commutes(
            a.units,
            b.units,
        ),
{
    match g {
        Gate::Hadamard(i) => {
            lemma_anti_count_update(
                a.units,
                b.units,
                i as int,
                a.units[i as int].spec_hadamard(),
                b.units[i as int].spec_hadamard(),
            );
        },
        Gate::Phase(i) => {
            lemma_anti_count_update(
                a.units,
                b.units,
                i as int,
                a.units[i as int].spec_phase(),
                b.units[i as int].spec_phase(),
            );
        },
        Gate::CNot(c, t) => {
            lemma_cnot_preserves_commutes(a, b, c as int, t as int);
        },
        Gate::Swap(c, t) => {
            let a1 = a.apply_cnot(c as int, t as int);
            let b1 = b.apply_cnot(c as int, t as int);
            let a2 = a1.apply_cnot(t as int, c as int);
            let b2 = b1.apply_cnot(t as int, c as int);
            lemma_cnot_preserves_commutes(a, b, c as int, t as int);
            lemma_cnot_preserves_commutes(a1, b1, t as int, c as int);
            lemma_cnot_preserves_commutes(a2, b2, c as int, t as int);
        },
    }
}

impl PauliOperator {
    /// True when this operator's pattern is already the canonical Z at qubit
    /// 0 and identity elsewhere (the sign is not examined).
    fn is_z_canonical(&self) -> (r: bool)
        requires
            self.ops@.len() >= 1,
        ensures
            r == z_canonical(self.ops@),
    {
        if !(self.ops[0] == Z()) {
            return false;
        }
        let mut k: usize = 1;
        while k < self.ops.len()
            invariant
                1 <= k <= self.ops@.len(),
                forall|q: int| 1 <= q < k ==> self.ops@[q] == spec_i(),
            decreases self.ops@.len() - k,
        {
            if self.ops[k] != I() {
                return false;
            }
            k += 1;
        }
        true
    }
}

/// One pass of the sweep's Z-clearing stage: at every qubit where `x` has a
/// set Z bit, apply Phase (if the X bit is set too) or Hadamard to both
/// operators, recording each gate. Whether the pair commutes is unchanged,
/// and if `y` was canonically Z-at-0 while anticommuting with `x`, `y`'s
/// pattern survives untouched.
fn clear_z_bits(x: &mut PauliOperator, y: &mut PauliOperator, circuit: &mut Vec<Gate>)
    requires
        old(x).ops@.len() == old(y).ops@.len(),
    ensures
        final(x).ops@.len() == old(x).ops@.len(),
        final(y).ops@.len() == old(y).ops@.len(),
        final(circuit)@.len() >= old(circuit)@.len(),
        final(circuit)@.take(old(circuit)@.len() as int) == old(circuit)@,
        final(x)@ == old(x)@.apply_gates(final(circuit)@.skip(old(circuit)@.len() as int)),
        final(y)@ == old(y)@.apply_gates(final(circuit)@.skip(old(circuit)@.len() as int)),
        forall|k: int|
            old(circuit)@.len() <= k < final(circuit)@.len() ==> final(circuit)@[k].wf(
                old(x).ops@.len() as nat,
            ),
        forall|k: int| 0 <= k < final(x).ops@.len() ==> !final(x).ops@[k].z,
        spec_commutes(final(x).ops@, final(y).ops@) == spec_commutes(
            old(x).ops@,
            old(y).ops@,
        ),
        (z_canonical(old(y).ops@) && !spec_commutes(old(x).ops@, old(y).ops@)) ==> z_canonical(
            final(y).ops@,
        ),
    {
        let n = x.ops.len();
        let mut i: usize = 0;
        while i < n
            invariant
                i <= n,
                x.ops@.len() == n,
                y.ops@.len() == n,
                old(x).ops@.len() == n,
                old(y).ops@.len() == n,
                circuit@.len() >= old(circuit)@.len(),
                circuit@.take(old(circuit)@.len() as int) == old(circuit)@,
                x@ == old(x)@.apply_gates(circuit@.skip(old(circuit)@.len() as int)),
                y@ == old(y)@.apply_gates(circuit@.skip(old(circuit)@.len() as int)),
                forall|k: int|
                    old(circuit)@.len() <= k < circuit@.len() ==> circuit@[k].wf(n as nat),
                forall|k: int| 0 <= k < i ==> !x.ops@[k].z,
                spec_commutes(x.ops@, y.ops@) == spec_commutes(old(x).ops@, old(y).ops@),
                (z_canonical(old(y).ops@) && !spec_commutes(old(x).ops@, old(y).ops@))
                    ==> z_canonical(y.ops@),
            decreases n - i,
        {
            // at every position where the Z bit is 1, apply S if the X bit
            // is 1, else H
            if x.ops[i].z {
                let gate = if x.ops[i].x {
                    Gate::Phase(i)
                } else {
                    Gate::Hadamard(i)
                };
                proof {
                    lemma_gate_preserves_commutes(x@, y@, gate);
                    if z_canonical(old(y).ops@) && !spec_commutes(old(x).ops@, old(y).ops@) {
                        if i == 0 {
                            // a Phase is chosen at qubit 0, never a
                            // Hadamard, so the canonical Z unit survives
                            assert(forall|k: int| 1 <= k < n ==> !anti(x.ops@[k], y.ops@[k]));
                            lemma_anti_count_first(x.ops@, y.ops@);
                            assert(x.ops@[0].x);
                        }
                    }
                }
                let ghost cpre = circuit@;
                let ghost ypre = y.ops@;
                x.apply(&gate);
                y.apply(&gate);
                circuit.push(gate);
                proof {
                    assert(circuit@.skip(old(circuit)@.len() as int) =~= cpre.skip(
                        old(circuit)@.len() as int,
                    ).push(gate));
                    assert(circuit@.take(old(circuit)@.len() as int) =~= old(circuit)@);
                    lemma_apply_gates_push(old(x)@, cpre.skip(old(circuit)@.len() as int), gate);
                    lemma_apply_gates_push(old(y)@, cpre.skip(old(circuit)@.len() as int), gate);
                    if z_canonical(old(y).ops@) && !spec_commutes(old(x).ops@, old(y).ops@) {
                        assert(z_canonical(y.ops@)) by {
                            assert(y.ops@[0] == ypre[0].spec_phase() || y.ops@[0] == ypre[0]
                                || (i > 0 && y.ops@[0] == ypre[0]));
                            assert(forall|k: int| 1 <= k < n && k != i ==> y.ops@[k] == ypre[k]);
                        }
                    }
                }
            }
            i += 1;
        }
    }

/// The sweep's X-reduction stage: repeatedly pair up the qubits where `x`
/// has a set X bit and apply a CNOT across each pair (clearing the target's
/// X bit), both operators receiving every gate, until exactly one X bit is
/// left; its position is returned. `x`'s Z bits must be clear and stay
/// clear, and the pair must anticommute (which also guarantees at least one
/// X bit at every round). If `y` was canonically Z-at-0, its pattern
/// survives and the surviving X bit lands at qubit 0.
fn reduce_x_bits(x: &mut PauliOperator, y: &mut PauliOperator, circuit: &mut Vec<Gate>) -> (fp:
    usize)
    requires
        old(x).ops@.len() == old(y).ops@.len(),
        old(x).ops@.len() >= 1,
        forall|k: int| 0 <= k < old(x).ops@.len() ==> !old(x).ops@[k].z,
        !spec_commutes(old(x).ops@, old(y).ops@),
    ensures
        final(x).ops@.len() == old(x).ops@.len(),
        final(y).ops@.len() == old(y).ops@.len(),
        final(circuit)@.len() >= old(circuit)@.len(),
        final(circuit)@.take(old(circuit)@.len() as int) == old(circuit)@,
        final(x)@ == old(x)@.apply_gates(final(circuit)@.skip(old(circuit)@.len() as int)),
        final(y)@ == old(y)@.apply_gates(final(circuit)@.skip(old(circuit)@.len() as int)),
        forall|k: int|
            old(circuit)@.len() <= k < final(circuit)@.len() ==> final(circuit)@[k].wf(
                old(x).ops@.len() as nat,
            ),
        forall|k: int| 0 <= k < final(x).ops@.len() ==> !final(x).ops@[k].z,
        !spec_commutes(final(x).ops@, final(y).ops@),
        fp < final(x).ops@.len(),
        final(x).ops@[fp as int].x,
        forall|k: int| 0 <= k < final(x).ops@.len() && k != fp ==> !final(x).ops@[k].x,
        z_canonical(old(y).ops@) ==> (fp == 0 && z_canonical(final(y).ops@)),
{
    let n = x.ops.len();
    loop
        invariant
            n >= 1,
            x.ops@.len() == n,
            y.ops@.len() == n,
            old(x).ops@.len() == n,
            old(y).ops@.len() == n,
            circuit@.len() >= old(circuit)@.len(),
            circuit@.take(old(circuit)@.len() as int) == old(circuit)@,
            x@ == old(x)@.apply_gates(circuit@.skip(old(circuit)@.len() as int)),
            y@ == old(y)@.apply_gates(circuit@.skip(old(circuit)@.len() as int)),
            forall|k: int| old(circuit)@.len() <= k < circuit@.len() ==> circuit@[k].wf(n as nat),
            forall|k: int| 0 <= k < n ==> !x.ops@[k].z,
            !spec_commutes(x.ops@, y.ops@),
            z_canonical(old(y).ops@) ==> z_canonical(y.ops@),
        decreases x_weight(x.ops@),
    {
        // collect the list of positions whose X bit is 1
        let mut j: Vec<usize> = Vec::new();
        let mut i: usize = 0;
        while i < n
            invariant
                i <= n,
                n == x.ops@.len(),
                j@.len() <= i,
                forall|q: int| 0 <= q < j@.len() ==> j@[q] < i,
                forall|q: int| 0 <= q < j@.len() ==> x.ops@[j@[q] as int].x,
                forall|q1: int, q2: int| 0 <= q1 < q2 < j@.len() ==> j@[q1] < j@[q2],
                forall|k: int| 0 <= k < i && x.ops@[k].x ==> j@.contains(k as usize),
                x_weight(x.ops@.take(i as int)) == j@.len(),
            decreases n - i,
        {
            let ghost jpre = j@;
            if x.ops[i].x {
                j.push(i);
            }
            proof {
                assert(x.ops@.take(i + 1).drop_last() =~= x.ops@.take(i as int));
                assert(x.ops@.take(i + 1).last() == x.ops@[i as int]);
                assert forall|k: int|
                    0 <= k < i + 1 && x.ops@[k].x implies j@.contains(k as usize) by {
                    if k < i {
                        let q = choose|q: int| 0 <= q < jpre.len() && jpre[q] == k as usize;
                        assert(j@[q] == k as usize);
                    } else {
                        assert(j@[j@.len() - 1] == i as usize);
                    }
                }
            }
            i += 1;
        }
        proof {
            assert(x.ops@.take(n as int) =~= x.ops@);
            // the list cannot be empty: an all-identity operator would
            // commute with anything
            if j@.len() == 0 {
                lemma_x_weight_zero(x.ops@);
                assert(forall|k: int| 0 <= k < n ==> !anti(x.ops@[k], y.ops@[k]));
                lemma_anti_count_from(x.ops@, y.ops@, 0);
                assert(x.ops@.take(0) =~= Seq::<Pauli>::empty());
                assert(anti_count(x.ops@.take(0), y.ops@.take(0)) == 0);
                assert(false);
            }
            if z_canonical(old(y).ops@) {
                // anticommuting with the canonical Z frame forces an X bit
                // at qubit 0, which sorts to the front of the list
                assert(forall|k: int| 1 <= k < n ==> !anti(x.ops@[k], y.ops@[k]));
                lemma_anti_count_first(x.ops@, y.ops@);
                assert(x.ops@[0].x);
                assert(j@.contains(0usize));
                let q = choose|q: int| 0 <= q < j@.len() && j@[q] == 0usize;
                if q > 0 {
                    assert(j@[0] < j@[q]);
                }
                assert(j@[0] == 0usize);
            }
        }
        if j.len() == 1 {
            let fp = j[0];
            proof {
                assert forall|k: int| 0 <= k < n && k != fp implies !x.ops@[k].x by {
                    if x.ops@[k].x {
                        let q = choose|q: int| 0 <= q < j@.len() && j@[q] == k as usize;
                        assert(j@[0] == k as usize);
                    }
                }
            }
            return fp;
        }
        // apply a CNOT across each consecutive pair of positions; the
        // target's X bit clears while the control's stays set
        let pairs = j.len() / 2;
        let ghost w0 = x_weight(x.ops@);
        let mut m: usize = 0;
        while m < pairs
            invariant
                m <= pairs,
                pairs == j@.len() / 2,
                2 <= j@.len() <= n,
                n >= 1,
                x.ops@.len() == n,
                y.ops@.len() == n,
                old(x).ops@.len() == n,
                old(y).ops@.len() == n,
                forall|q: int| 0 <= q < j@.len() ==> j@[q] < n,
                forall|q1: int, q2: int| 0 <= q1 < q2 < j@.len() ==> j@[q1] < j@[q2],
                circuit@.len() >= old(circuit)@.len(),
                circuit@.take(old(circuit)@.len() as int) == old(circuit)@,
                x@ == old(x)@.apply_gates(circuit@.skip(old(circuit)@.len() as int)),
                y@ == old(y)@.apply_gates(circuit@.skip(old(circuit)@.len() as int)),
                forall|k: int|
                    old(circuit)@.len() <= k < circuit@.len() ==> circuit@[k].wf(n as nat),
                forall|k: int| 0 <= k < n ==> !x.ops@[k].z,
                !spec_commutes(x.ops@, y.ops@),
                forall|q: int|
                    0 <= q < j@.len() ==> (x.ops@[j@[q] as int].x == (q % 2 == 0 || q >= 2 * m)),
                forall|k: int| 0 <= k < n && !j@.contains(k as usize) ==> !x.ops@[k].x,
                x_weight(x.ops@) + m == w0,
                w0 == j@.len(),
                z_canonical(old(y).ops@) ==> (z_canonical(y.ops@) && j@[0] == 0usize),
            decreases pairs - m,
        {
            let c = j[2 * m];
            let t = j[2 * m + 1];
            let gate = Gate::CNot(c, t);
            let ghost xpre = x.ops@;
            let ghost ypre = y.ops@;
            let ghost cpre = circuit@;
            proof {
                assert(c < t) by {
                    assert(j@[2 * m] < j@[2 * m + 1]);
                }
                assert(x.ops@[c as int].x);
                assert(x.ops@[t as int].x);
                lemma_gate_preserves_commutes(x@, y@, gate);
            }
            x.apply(&gate);
            y.apply(&gate);
            circuit.push(gate);
            proof {
                assert(circuit@.skip(old(circuit)@.len() as int) =~= cpre.skip(
                    old(circuit)@.len() as int,
                ).push(gate));
                assert(circuit@.take(old(circuit)@.len() as int) =~= old(circuit)@);
                lemma_apply_gates_push(old(x)@, cpre.skip(old(circuit)@.len() as int), gate);
                lemma_apply_gates_push(old(y)@, cpre.skip(old(circuit)@.len() as int), gate);
                // the X-bit bookkeeping across the two updated positions
                let pc = xpre[c as int];
                let pt = xpre[t as int];
                let x1 = xpre.update(c as int, pc.spec_cnot(pt).0);
                assert(x.ops@ =~= x1.update(t as int, pc.spec_cnot(pt).1));
                lemma_x_weight_update(xpre, c as int, pc.spec_cnot(pt).0);
                assert(x1[t as int] == pt);
                lemma_x_weight_update(x1, t as int, pc.spec_cnot(pt).1);
                assert(x_weight(x.ops@) + (m + 1) == w0);
                assert forall|q: int|
                    0 <= q < j@.len() implies (x.ops@[j@[q] as int].x == (q % 2 == 0 || q >= 2 * (m
                    + 1))) by {
                    if q < 2 * m {
                        assert(j@[q] != c && j@[q] != t) by {
                            assert(j@[q] < j@[2 * m]);
                            assert(j@[q] < j@[2 * m + 1]);
                        }
                    } else if q == 2 * m {
                        assert(j@[q] == c && c != t);
                    } else if q == 2 * m + 1 {
                        assert(j@[q] == t);
                    } else {
                        assert(j@[2 * m] < j@[q] && j@[2 * m + 1] < j@[q]) by {
                            assert(2 * m < q && 2 * m + 1 < q);
                        }
                    }
                }
                assert forall|k: int|
                    0 <= k < n && !j@.contains(k as usize) implies !x.ops@[k].x by {
                    assert(j@.contains(c) && j@.contains(t));
                    assert(k != c && k != t);
                }
                if z_canonical(old(y).ops@) {
                    assert(t >= 1) by {
                        if 2 * m + 1 > 0 {
                            assert(j@[0] < j@[2 * m + 1]);
                        }
                    }
                    let qc = ypre[c as int];
                    let qt = ypre[t as int];
                    assert(y.ops@ == ypre.update(c as int, qc.spec_cnot(qt).0).update(
                        t as int,
                        qc.spec_cnot(qt).1,
                    ));
                    assert(z_canonical(y.ops@)) by {
                        assert(forall|k: int|
                            1 <= k < n && k != c && k != t ==> y.ops@[k] == ypre[k]);
                    }
                }
            }
            m += 1;
        }
        proof {
            assert(x_weight(x.ops@) == w0 - pairs);
            assert(pairs >= 1);
        }
    }
}

impl PauliOperator {
    /// Sweep an anticommuting pair of operators to the canonical patterns:
    /// the first to X at qubit 0 and identity elsewhere, the second to Z at
    /// qubit 0 and identity elsewhere. Returns the circuit used to do so;
    /// replaying it on the original pair reproduces the final pair exactly,
    /// sign bits included (the signs themselves are not canonicalized).
    pub fn sweep(&mut self, other: &mut Self) -> (r: Vec<Gate>)
        requires
            old(self).ops@.len() == old(other).ops@.len(),
            old(self).ops@.len() >= 1,
            !spec_commutes(old(self).ops@, old(other).ops@),
        ensures
            final(self).ops@.len() == old(self).ops@.len(),
            final(other).ops@.len() == old(other).ops@.len(),
            final(self)@ == old(self)@.apply_gates(r@),
            final(other)@ == old(other)@.apply_gates(r@),
            forall|k: int| 0 <= k < r@.len() ==> r@[k].wf(old(self).ops@.len() as nat),
            x_canonical(final(self).ops@),
            z_canonical(final(other).ops@),
            !spec_commutes(final(self).ops@, final(other).ops@),
    {
        let ghost n = self.ops@.len();
        let mut circuit: Vec<Gate> = Vec::new();

        // Step 1: clear all of the first operator's Z bits using H and S
        clear_z_bits(self, other, &mut circuit);
        proof {
            assert(circuit@.skip(0) =~= circuit@);
        }

        // Step 2: clear all but one of its X bits using CNOTs
        let ghost c1 = circuit@;
        let first_position = reduce_x_bits(self, other, &mut circuit);
        proof {
            let app = circuit@.skip(c1.len() as int);
            assert(circuit@ =~= c1 + app);
            lemma_apply_gates_append(old(self)@, c1, app);
            lemma_apply_gates_append(old(other)@, c1, app);
            assert(forall|k: int| 0 <= k < c1.len() ==> circuit@[k] == c1[k]);
        }

        // Step 3: move the surviving X bit into the first position
        if first_position != 0 {
            let gate = Gate::Swap(0, first_position);
            let ghost spre = self@;
            let ghost cpre = circuit@;
            proof {
                lemma_gate_preserves_commutes(self@, other@, gate);
            }
            self.apply(&gate);
            other.apply(&gate);
            circuit.push(gate);
            proof {
                lemma_apply_gates_push(old(self)@, cpre, gate);
                lemma_apply_gates_push(old(other)@, cpre, gate);
                lemma_swap_via_cnots(spre, 0, first_position as int);
                assert(self.ops@ == spre.units.update(0, spre.units[first_position as int]).update(
                    first_position as int,
                    spre.units[0],
                ));
                assert(x_canonical(self.ops@));
            }
        }
        proof {
            assert(x_canonical(self.ops@));
            assert(self@ == old(self)@.apply_gates(circuit@));
            assert(other@ == old(other)@.apply_gates(circuit@));
        }

        // Step 4: canonicalize the second operator within the fixed frame
        if !other.is_z_canonical() {
            // 4a: a Hadamard at qubit 0 turns the frame from X to Z
            let gate = Gate::Hadamard(0);
            let ghost spre = self@;
            let ghost cpre = circuit@;
            proof {
                lemma_gate_preserves_commutes(self@, other@, gate);
            }
            self.apply(&gate);
            other.apply(&gate);
            circuit.push(gate);
            proof {
                lemma_apply_gates_push(old(self)@, cpre, gate);
                lemma_apply_gates_push(old(other)@, cpre, gate);
                assert(self.ops@ == spre.units.update(0, spre.units[0].spec_hadamard()));
                assert(z_canonical(self.ops@));
                lemma_commutes_symmetric(other.ops@, self.ops@);
            }

            // 4b: repeat step 1, driven by the second operator
            let ghost c2 = circuit@;
            let ghost s2 = self@;
            let ghost o2 = other@;
            clear_z_bits(other, self, &mut circuit);
            proof {
                let app = circuit@.skip(c2.len() as int);
                assert(circuit@ =~= c2 + app);
                lemma_apply_gates_append(old(self)@, c2, app);
                lemma_apply_gates_append(old(other)@, c2, app);
                assert(forall|k: int| 0 <= k < c2.len() ==> circuit@[k] == c2[k]);
                lemma_commutes_symmetric(other.ops@, self.ops@);
            }

            // 4c: repeat step 2, driven by the second operator; the
            // surviving X bit lands at qubit 0 of its own accord, because
            // the pair still anticommutes within the canonical Z frame
            let ghost c3 = circuit@;
            let fp2 = reduce_x_bits(other, self, &mut circuit);
            proof {
                let app = circuit@.skip(c3.len() as int);
                assert(circuit@ =~= c3 + app);
                lemma_apply_gates_append(old(self)@, c3, app);
                lemma_apply_gates_append(old(other)@, c3, app);
                assert(forall|k: int| 0 <= k < c3.len() ==> circuit@[k] == c3[k]);
                assert(fp2 == 0);
                lemma_commutes_symmetric(other.ops@, self.ops@);
            }

            // 4d: restore the frame from Z back to X
            let gate = Gate::Hadamard(0);
            let ghost spre4 = self@;
            let ghost opre4 = other@;
            let ghost cpre4 = circuit@;
            proof {
                lemma_gate_preserves_commutes(self@, other@, gate);
            }
            self.apply(&gate);
            other.apply(&gate);
            circuit.push(gate);
            proof {
                lemma_apply_gates_push(old(self)@, cpre4, gate);
                lemma_apply_gates_push(old(other)@, cpre4, gate);
                assert(self.ops@ == spre4.units.update(0, spre4.units[0].spec_hadamard()));
                assert(other.ops@ == opre4.units.update(0, opre4.units[0].spec_hadamard()));
                assert(opre4.units[0] == spec_x());
                assert(x_canonical(self.ops@));
                assert(z_canonical(other.ops@));
            }
        }
        circuit
    }
}

} // verus!
