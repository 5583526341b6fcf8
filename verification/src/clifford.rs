use vstd::prelude::*;

use crate::gate::Gate;
use crate::operator::{spec_commutes, x_canonical, z_canonical, PauliOperator};

verus! {

/// A tableau of Pauli operators awaiting reduction, with the Clifford
/// circuit accumulated so far. The frame's qubit count is implicit: it is
/// the length of the first row. Later rows may be shorter; a row of length
/// `m` stands for the last `m` qubits of the frame, so its gates are
/// shifted right by the difference when they join the circuit.
pub struct Clifford {
    pub circuit: Vec<Gate>,
    pub tableau: Vec<PauliOperator>,
}

/// Rows of a width-`n` frame come in consecutive pairs: the two operators of
/// a pair have one length, between 1 and `n`, and anticommute.
pub open spec fn wf_rows(rows: Seq<PauliOperator>, n: nat) -> bool {
    &&& rows.len() % 2 == 0
    &&& forall|k: int|
        0 <= k < rows.len() / 2 ==> {
            &&& (#[trigger] rows[2 * k]).ops@.len() == rows[2 * k + 1].ops@.len()
            &&& 1 <= rows[2 * k].ops@.len() <= n
            &&& !spec_commutes(rows[2 * k].ops@, rows[2 * k + 1].ops@)
        }
}

/// The pair was rewritten by conjugation alone: one shared, well-formed
/// gate sequence replays the old pair to the new one, signs included.
pub open spec fn pair_conjugated(
    a0: PauliOperator,
    b0: PauliOperator,
    a1: PauliOperator,
    b1: PauliOperator,
) -> bool {
    exists|gs: Seq<Gate>|
        {
            &&& a1@ == a0@.apply_gates(gs)
            &&& b1@ == b0@.apply_gates(gs)
            &&& forall|k: int| 0 <= k < gs.len() ==> gs[k].wf(a0.ops@.len() as nat)
        }
}

/// A well-formed tableau: its rows pair up within the frame set by the
/// first row's length.
pub open spec fn wf_tableau(rows: Seq<PauliOperator>) -> bool {
    if rows.len() == 0 {
        true
    } else {
        wf_rows(rows, rows[0].ops@.len())
    }
}

impl Gate {
    /// The same gate with every qubit index shifted up by `off`.
    pub open spec fn spec_offset(self, off: int) -> Gate {
        match self {
            Gate::Hadamard(a) => Gate::Hadamard((a + off) as usize),
            Gate::Phase(a) => Gate::Phase((a + off) as usize),
            Gate::CNot(a, b) => Gate::CNot((a + off) as usize, (b + off) as usize),
            Gate::Swap(a, b) => Gate::Swap((a + off) as usize, (b + off) as usize),
        }
    }
}

/// Shift a gate recorded against a short row into the full frame: the row's
/// qubits are the frame's last ones.
fn offset_gate(g: &Gate, off: usize, Ghost(m): Ghost<nat>) -> (r: Gate)
    requires
        g.wf(m),
        off + m <= usize::MAX,
    ensures
        r == g.spec_offset(off as int),
        r.wf((off + m) as nat),
{
    match g {
        Gate::Hadamard(a) => Gate::Hadamard(*a + off),
        Gate::Phase(a) => Gate::Phase(*a + off),
        Gate::CNot(a, b) => Gate::CNot(*a + off, *b + off),
        Gate::Swap(a, b) => Gate::Swap(*a + off, *b + off),
    }
}

impl Clifford {
    /// Sweep every pair of rows to the canonical X/Z patterns, appending
    /// each pair's gates, shifted into the full frame, to the accumulated
    /// circuit. Row lengths and order are preserved.
    pub fn sweep(&mut self)
        requires
            wf_tableau(old(self).tableau@),
        ensures
            final(self).tableau@.len() == old(self).tableau@.len(),
            final(self).circuit@.len() >= old(self).circuit@.len(),
            final(self).circuit@.take(old(self).circuit@.len() as int) == old(self).circuit@,
            forall|i: int|
                0 <= i < final(self).tableau@.len() ==> (#[trigger] final(self).tableau@[i]).ops@.len()
                    == old(self).tableau@[i].ops@.len(),
            forall|i: int|
                0 <= i < final(self).tableau@.len() && i % 2 == 0 ==> x_canonical(
                    (#[trigger] final(self).tableau@[i]).ops@,
                ),
            forall|i: int|
                0 <= i < final(self).tableau@.len() && i % 2 == 1 ==> z_canonical(
                    (#[trigger] final(self).tableau@[i]).ops@,
                ),
            forall|i: int|
                0 <= i < final(self).tableau@.len() && i % 2 == 0 ==> pair_conjugated(
                    old(self).tableau@[i],
                    old(self).tableau@[i + 1],
                    (#[trigger] final(self).tableau@[i]),
                    final(self).tableau@[i + 1],
                ),
    {
        let ghost rows0 = self.tableau@;
        let n_full = if self.tableau.len() > 0 {
            self.tableau[0].ops.len()
        } else {
            0
        };
        let mut done: Vec<PauliOperator> = Vec::new();
        while self.tableau.len() >= 2
            invariant
                done@.len() % 2 == 0,
                done@.len() + self.tableau@.len() == rows0.len(),
                forall|i: int|
                    0 <= i < self.tableau@.len() ==> self.tableau@[i] == rows0[done@.len() + i],
                wf_tableau(rows0),
                rows0.len() > 0 ==> n_full == rows0[0].ops@.len(),
                forall|i: int|
                    0 <= i < done@.len() ==> (#[trigger] done@[i]).ops@.len()
                        == rows0[i].ops@.len(),
                forall|k: int|
                    0 <= k < done@.len() / 2 ==> {
                        &&& x_canonical((#[trigger] done@[2 * k]).ops@)
                        &&& z_canonical(done@[2 * k + 1].ops@)
                    },
                forall|i: int|
                    0 <= i < done@.len() && i % 2 == 0 ==> pair_conjugated(
                        rows0[i],
                        rows0[i + 1],
                        (#[trigger] done@[i]),
                        done@[i + 1],
                    ),
                self.circuit@.len() >= old(self).circuit@.len(),
                self.circuit@.take(old(self).circuit@.len() as int) == old(self).circuit@,
            decreases self.tableau.len(),
        {
            let ghost d0 = done@.len() as int;
            proof {
                assert(rows0[2 * (d0 / 2)] == rows0[d0]);
                assert(rows0[2 * (d0 / 2) + 1] == rows0[d0 + 1]);
            }
            let mut a = self.tableau.remove(0);
            let mut b = self.tableau.remove(0);
            let gates = a.sweep(&mut b);
            let off = n_full - a.ops.len();
            let ghost tpre = self.tableau@;
            let mut gi: usize = 0;
            while gi < gates.len()
                invariant
                    gi <= gates.len(),
                    self.tableau@ == tpre,
                    off + a.ops@.len() <= n_full,
                    forall|k: int| 0 <= k < gates@.len() ==> gates@[k].wf(a.ops@.len() as nat),
                    self.circuit@.len() >= old(self).circuit@.len(),
                    self.circuit@.take(old(self).circuit@.len() as int) == old(self).circuit@,
                decreases gates.len() - gi,
            {
                let g = offset_gate(&gates[gi], off, Ghost(a.ops@.len()));
                self.circuit.push(g);
                proof {
                    assert(self.circuit@.take(old(self).circuit@.len() as int) =~= old(self).circuit@);
                }
                gi += 1;
            }
            let ghost dpre = done@;
            proof {
                assert(a@ == rows0[d0]@.apply_gates(gates@));
                assert(b@ == rows0[d0 + 1]@.apply_gates(gates@));
                assert(forall|k: int|
                    0 <= k < gates@.len() ==> gates@[k].wf(rows0[d0].ops@.len() as nat));
                assert(pair_conjugated(rows0[d0], rows0[d0 + 1], a, b));
            }
            done.push(a);
            done.push(b);
            proof {
                assert forall|k: int|
                    0 <= k < done@.len() / 2 implies {
                    &&& x_canonical((#[trigger] done@[2 * k]).ops@)
                    &&& z_canonical(done@[2 * k + 1].ops@)
                } by {
                    if k < d0 / 2 {
                        assert(done@[2 * k] == done@.subrange(0, d0)[2 * k]);
                    }
                }
                assert forall|i: int|
                    0 <= i < done@.len() && i % 2 == 0 implies pair_conjugated(
                    rows0[i],
                    rows0[i + 1],
                    (#[trigger] done@[i]),
                    done@[i + 1],
                ) by {
                    if i < d0 {
                        assert(done@[i] == dpre[i]);
                        assert(done@[i + 1] == dpre[i + 1]);
                        assert(pair_conjugated(rows0[i], rows0[i + 1], dpre[i], dpre[i + 1]));
                    } else {
                        assert(done@[d0] == a);
                        assert(done@[d0 + 1] == b);
                    }
                }
            }
        }
        self.tableau = done;
        proof {
            assert forall|i: int|
                0 <= i < self.tableau@.len() && i % 2 == 0 implies x_canonical(
                (#[trigger] self.tableau@[i]).ops@,
            ) by {
                let k = i / 2;
                assert(done@[2 * k] == done@[i]);
                assert(x_canonical(done@[2 * k].ops@));
            }
            assert forall|i: int|
                0 <= i < self.tableau@.len() && i % 2 == 1 implies z_canonical(
                (#[trigger] self.tableau@[i]).ops@,
            ) by {
                let k = i / 2;
                assert(done@[2 * k + 1] == done@[i]);
                assert(x_canonical(done@[2 * k].ops@));
                assert(z_canonical(done@[2 * k + 1].ops@));
            }
            assert forall|i: int|
                0 <= i < self.tableau@.len() && i % 2 == 0 implies pair_conjugated(
                rows0[i],
                rows0[i + 1],
                (#[trigger] self.tableau@[i]),
                self.tableau@[i + 1],
            ) by {
                assert(pair_conjugated(rows0[i], rows0[i + 1], done@[i], done@[i + 1]));
            }
        }
    }

    /// Build a random Clifford over `n` qubits: sample an anticommuting
    /// pair at every width from `n` down to 1, sweep each pair to the
    /// canonical basis patterns, and append the recorded gates shifted into
    /// the full frame.
    pub fn gen_circuit(n: usize) -> (r: Clifford)
        requires
            n >= 1,
        ensures
            r.tableau@.len() == 2 * n,
            forall|k: int|
                0 <= k < n ==> {
                    &&& (#[trigger] r.tableau@[2 * k]).ops@.len() == n - k
                    &&& r.tableau@[2 * k + 1].ops@.len() == n - k
                    &&& x_canonical(r.tableau@[2 * k].ops@)
                    &&& z_canonical(r.tableau@[2 * k + 1].ops@)
                },
            forall|k: int| 0 <= k < r.circuit@.len() ==> (#[trigger] r.circuit@[k]).wf(n as nat),
    {
        let mut c = Clifford { circuit: Vec::new(), tableau: Vec::new() };
        let mut m: usize = n;
        while m >= 1
            invariant
                m <= n,
                c.tableau@.len() == 2 * (n - m),
                forall|k: int|
                    0 <= k < n - m ==> {
                        &&& (#[trigger] c.tableau@[2 * k]).ops@.len() == n - k
                        &&& c.tableau@[2 * k + 1].ops@.len() == n - k
                        &&& x_canonical(c.tableau@[2 * k].ops@)
                        &&& z_canonical(c.tableau@[2 * k + 1].ops@)
                    },
                forall|k: int|
                    0 <= k < c.circuit@.len() ==> (#[trigger] c.circuit@[k]).wf(n as nat),
            decreases m,
        {
            let (mut a, mut b) = PauliOperator::gen_anticommuting_pair_any(m);
            let gates = a.sweep(&mut b);
            let off = n - m;
            let ghost tpre = c.tableau@;
            let mut gi: usize = 0;
            while gi < gates.len()
                invariant
                    gi <= gates.len(),
                    1 <= m <= n,
                    off == n - m,
                    a.ops@.len() == m,
                    c.tableau@ == tpre,
                    forall|k: int| 0 <= k < gates@.len() ==> (#[trigger] gates@[k]).wf(m as nat),
                    forall|k: int|
                        0 <= k < c.circuit@.len() ==> (#[trigger] c.circuit@[k]).wf(n as nat),
                decreases gates.len() - gi,
            {
                let g = offset_gate(&gates[gi], off, Ghost(m as nat));
                c.circuit.push(g);
                gi += 1;
            }
            c.tableau.push(a);
            c.tableau.push(b);
            proof {
                let d = n - m;
                assert(c.tableau@[2 * d] == a);
                assert(c.tableau@[2 * d + 1] == b);
                assert forall|k: int|
                    0 <= k < n - m + 1 implies {
                    &&& (#[trigger] c.tableau@[2 * k]).ops@.len() == n - k
                    &&& c.tableau@[2 * k + 1].ops@.len() == n - k
                    &&& x_canonical(c.tableau@[2 * k].ops@)
                    &&& z_canonical(c.tableau@[2 * k + 1].ops@)
                } by {
                    if k < d {
                        assert(c.tableau@[2 * k] == tpre[2 * k]);
                        assert(c.tableau@[2 * k + 1] == tpre[2 * k + 1]);
                        assert((tpre[2 * k]).ops@.len() == n - k);
                    } else {
                        assert(k == d);
                    }
                }
            }
            m -= 1;
        }
        c
    }
}

} // verus!
