use quantum_project::{Pauli, PauliOperator, I, X, Y, Z};

fn op(units: Vec<Pauli>, sign: bool) -> PauliOperator {
    PauliOperator { ops: units, sign }
}

fn all_units() -> Vec<Pauli> {
    vec![I(), X(), Y(), Z()]
}

#[test]
fn phase_twice_on_plus_x_flips_the_sign() {
    let mut a = op(vec![X()], false);
    a.phase(0);
    a.phase(0);
    assert_eq!(a.ops, vec![X()]);
    assert!(a.sign);
}

#[test]
fn phase_four_times_on_plus_x_restores_the_sign() {
    let mut a = op(vec![X()], false);
    for _ in 0..4 {
        a.phase(0);
    }
    assert_eq!(a.ops, vec![X()]);
    assert!(!a.sign);
}

#[test]
fn hadamard_twice_restores_unit_and_sign() {
    for p in all_units() {
        for sign in [false, true] {
            let mut a = op(vec![p], sign);
            a.hadamard(0);
            a.hadamard(0);
            assert_eq!(a, op(vec![p], sign));
        }
    }
}

#[test]
fn commutes_is_symmetric_on_all_two_qubit_patterns() {
    for p0 in all_units() {
        for p1 in all_units() {
            for q0 in all_units() {
                for q1 in all_units() {
                    let a = op(vec![p0, p1], false);
                    let b = op(vec![q0, q1], false);
                    assert_eq!(a.commutes(&b), b.commutes(&a));
                }
            }
        }
    }
}

#[test]
fn commutes_on_known_pairs() {
    // XX and ZZ anticommute at both positions: even count, so they commute
    let a = op(vec![X(), X()], false);
    let b = op(vec![Z(), Z()], false);
    assert!(a.commutes(&b));
    // XI and ZI anticommute at one position only
    let c = op(vec![X(), I()], false);
    let d = op(vec![Z(), I()], false);
    assert!(!c.commutes(&d));
    // the identity commutes with everything
    let e = op(vec![I(), I()], false);
    assert!(e.commutes(&a));
}

#[test]
fn gen_anticommuting_pair_is_valid_for_small_sizes() {
    for n in 2..7 {
        let (a, b) = PauliOperator::gen_anticommuting_pair(n);
        assert_eq!(a.ops.len(), n);
        assert_eq!(b.ops.len(), n);
        assert!(a.ops.iter().any(|p| *p != I()));
        assert!(!a.commutes(&b));
    }
}

#[test]
fn left_pad_inserts_identities_at_the_front() {
    let mut a = op(vec![X(), Z(), Y(), I()], true);
    a.left_pad(5);
    assert_eq!(a.ops, vec![I(), X(), Z(), Y(), I()]);
    assert!(a.sign);
}

#[test]
fn left_pad_to_smaller_size_does_nothing() {
    let mut a = op(vec![X(), Z()], false);
    a.left_pad(1);
    assert_eq!(a.ops, vec![X(), Z()]);
    a.left_pad(2);
    assert_eq!(a.ops, vec![X(), Z()]);
}

#[test]
fn swap_gate_exchanges_units_and_keeps_the_sign() {
    // exhaustive over every two-qubit pattern and both signs: three CNOTs
    // behave as a plain exchange of the two units
    for p0 in all_units() {
        for p1 in all_units() {
            for sign in [false, true] {
                let mut a = op(vec![p0, p1], sign);
                a.apply(&quantum_project::Gate::Swap(0, 1));
                assert_eq!(a, op(vec![p1, p0], sign));
            }
        }
    }
}
