use quantum_project::{Gate, ParseError, PauliOperator, I, X, Y, Z};

#[test]
fn parse_reads_sign_and_letters() {
    let a = PauliOperator::parse("+XYZI").unwrap();
    assert!(!a.sign);
    assert_eq!(a.ops, vec![X(), Y(), Z(), I()]);
    let b = PauliOperator::parse("-IZ").unwrap();
    assert!(b.sign);
    assert_eq!(b.ops, vec![I(), Z()]);
}

#[test]
fn parse_rejects_a_missing_or_bad_sign() {
    assert_eq!(PauliOperator::parse(""), Err(ParseError::Sign));
    assert_eq!(PauliOperator::parse("XZ"), Err(ParseError::Sign));
    assert_eq!(PauliOperator::parse("*XZ"), Err(ParseError::Sign));
}

#[test]
fn parse_rejects_a_bad_letter() {
    assert_eq!(PauliOperator::parse("+XQ"), Err(ParseError::Letter));
    assert_eq!(PauliOperator::parse("-xyz"), Err(ParseError::Letter));
}

#[test]
fn encode_after_parse_reproduces_the_text() {
    for s in ["+XYZI", "-IZ", "+I", "-YYYX", "+XYYX", "-IIII", "+Z"] {
        let op = PauliOperator::parse(s).unwrap();
        assert_eq!(op.encode(), s);
    }
}

#[test]
fn encode_writes_sign_then_letters() {
    let a = PauliOperator { ops: vec![Y(), I(), Z()], sign: true };
    assert_eq!(a.encode(), "-YIZ");
    let b = PauliOperator { ops: vec![], sign: false };
    assert_eq!(b.encode(), "+");
}

#[test]
fn render_appends_the_bit_rows() {
    let a = PauliOperator::parse("+XYZI").unwrap();
    assert_eq!(a.render(), "+XYZI - XX__|_ZZ_");
    let b = PauliOperator::parse("-Y").unwrap();
    assert_eq!(b.render(), "-Y - X|Z");
}

#[test]
fn pauli_render_gives_the_letter() {
    assert_eq!(I().render(), "I");
    assert_eq!(X().render(), "X");
    assert_eq!(Y().render(), "Y");
    assert_eq!(Z().render(), "Z");
}

#[test]
fn gate_render_matches_the_display_form() {
    assert_eq!(Gate::Hadamard(0).render(), "Hadamard(0)");
    assert_eq!(Gate::Phase(7).render(), "Phase(7)");
    assert_eq!(Gate::CNot(0, 2).render(), "CNot(0, 2)");
    assert_eq!(Gate::Swap(12, 305).render(), "Swap(12, 305)");
}
