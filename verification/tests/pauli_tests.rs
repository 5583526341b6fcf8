use quantum_project::{Pauli, I, X, Y, Z};

fn all_units() -> Vec<Pauli> {
    vec![I(), X(), Y(), Z()]
}

#[test]
fn hadamard_is_involution_on_every_unit() {
    for p in all_units() {
        assert_eq!(p.hadamard().hadamard(), p);
    }
}

#[test]
fn phase_is_involution_on_every_unit() {
    for p in all_units() {
        assert_eq!(p.phase().phase(), p);
    }
}

#[test]
fn cnot_is_involution_on_every_unit_pair() {
    for a in all_units() {
        for b in all_units() {
            let (a1, b1) = a.cnot(&b);
            let (a2, b2) = a1.cnot(&b1);
            assert_eq!((a2, b2), (a, b));
        }
    }
}

#[test]
fn hadamard_exchanges_x_and_z() {
    assert_eq!(X().hadamard(), Z());
    assert_eq!(Z().hadamard(), X());
    assert_eq!(Y().hadamard(), Y());
    assert_eq!(I().hadamard(), I());
}

#[test]
fn phase_exchanges_x_and_y() {
    assert_eq!(X().phase(), Y());
    assert_eq!(Y().phase(), X());
    assert_eq!(Z().phase(), Z());
    assert_eq!(I().phase(), I());
}

#[test]
fn new_builds_the_unit_from_its_bits() {
    assert_eq!(Pauli::new(false, false), I());
    assert_eq!(Pauli::new(true, false), X());
    assert_eq!(Pauli::new(true, true), Y());
    assert_eq!(Pauli::new(false, true), Z());
}

#[test]
fn random_unit_is_one_of_the_four() {
    for _ in 0..32 {
        let p = Pauli::gen_random();
        assert!(p == I() || p == X() || p == Y() || p == Z());
    }
}
