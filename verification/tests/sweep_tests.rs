use quantum_project::{Clifford, Pauli, PauliOperator, I, X, Z};

fn parse(s: &str) -> PauliOperator {
    PauliOperator::parse(s).unwrap()
}

fn is_x_pattern(units: &[Pauli]) -> bool {
    units.len() >= 1 && units[0] == X() && units[1..].iter().all(|p| *p == I())
}

fn is_z_pattern(units: &[Pauli]) -> bool {
    units.len() >= 1 && units[0] == Z() && units[1..].iter().all(|p| *p == I())
}

#[test]
fn sweep_canonicalizes_the_worked_example_pair() {
    let mut a = parse("+XYYX");
    let mut b = parse("+YYYX");
    assert!(!a.commutes(&b));
    let circuit = a.sweep(&mut b);
    assert!(is_x_pattern(&a.ops));
    assert!(is_z_pattern(&b.ops));
    assert!(!circuit.is_empty());
}

#[test]
fn sweep_circuit_replays_to_the_swept_pair() {
    let mut a = parse("+XYYX");
    let mut b = parse("+YYYX");
    let orig_a = a.clone();
    let orig_b = b.clone();
    let circuit = a.sweep(&mut b);
    let mut ra = orig_a;
    let mut rb = orig_b;
    for g in circuit.iter() {
        ra.apply(g);
        rb.apply(g);
    }
    assert_eq!(ra, a);
    assert_eq!(rb, b);
}

#[test]
fn sweep_canonicalizes_random_pairs() {
    for n in 2..6 {
        let (mut a, mut b) = PauliOperator::gen_anticommuting_pair(n);
        let _circuit = a.sweep(&mut b);
        assert!(is_x_pattern(&a.ops));
        assert!(is_z_pattern(&b.ops));
        assert!(!a.commutes(&b));
    }
}

#[test]
fn sweep_of_an_already_canonical_pair_emits_no_gates() {
    let mut a = parse("+XII");
    let mut b = parse("+ZII");
    let circuit = a.sweep(&mut b);
    assert!(circuit.is_empty());
    assert!(is_x_pattern(&a.ops));
    assert!(is_z_pattern(&b.ops));
}

#[test]
fn sweep_handles_an_odd_number_of_set_x_bits() {
    // three X bits survive the first stage; the pairing step leaves a
    // remainder element and must come around again
    let mut a = parse("+XXX");
    let mut b = parse("+ZII");
    assert!(!a.commutes(&b));
    let circuit = a.sweep(&mut b);
    assert!(is_x_pattern(&a.ops));
    assert!(is_z_pattern(&b.ops));
    assert!(!circuit.is_empty());
}

#[test]
fn sweep_moves_a_lone_x_bit_to_the_front_with_a_swap() {
    let mut a = parse("+IX");
    let mut b = parse("+IZ");
    let circuit = a.sweep(&mut b);
    assert_eq!(circuit, vec![quantum_project::Gate::Swap(0, 1)]);
    assert!(is_x_pattern(&a.ops));
    assert!(is_z_pattern(&b.ops));
}

#[test]
fn figure_tableau_sweeps_to_a_nonempty_circuit() {
    let rows: Vec<PauliOperator> = ["+XYYX", "+YYYX", "+IZI", "+YYI", "+IX", "+IZ", "+Z", "+X"]
        .iter()
        .map(|s| parse(s))
        .collect();
    let mut c = Clifford { circuit: vec![], tableau: rows };
    c.sweep();
    assert!(!c.circuit.is_empty());
    assert_eq!(c.tableau.len(), 8);
    for k in 0..4 {
        assert!(is_x_pattern(&c.tableau[2 * k].ops));
        assert!(is_z_pattern(&c.tableau[2 * k + 1].ops));
    }
    // row lengths are preserved
    let lens: Vec<usize> = c.tableau.iter().map(|r| r.ops.len()).collect();
    assert_eq!(lens, vec![4, 4, 3, 3, 2, 2, 1, 1]);
}

#[test]
fn gen_circuit_produces_a_fully_reduced_tableau() {
    let n = 4;
    let c = Clifford::gen_circuit(n);
    assert_eq!(c.tableau.len(), 2 * n);
    for k in 0..n {
        assert_eq!(c.tableau[2 * k].ops.len(), n - k);
        assert_eq!(c.tableau[2 * k + 1].ops.len(), n - k);
        assert!(is_x_pattern(&c.tableau[2 * k].ops));
        assert!(is_z_pattern(&c.tableau[2 * k + 1].ops));
    }
}
