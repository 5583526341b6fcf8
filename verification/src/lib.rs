//! Symplectic (stabilizer-tableau) representation of multi-qubit Pauli
//! operators, with the Clifford-gate sweep that canonicalizes an
//! anticommuting pair of operators while recording the gates it used.

mod clifford;
mod codec;
mod gate;
mod operator;
mod pauli;
mod sweep;

pub use clifford::{pair_conjugated, wf_rows, wf_tableau, Clifford};
pub use codec::{
    dec_digits, digit_char, encode_of, gate_text, lemma_parse_encode_round_trip, letter_of,
    pauli_of, render_of, valid_letter, valid_syntax, ParseError,
};
pub use gate::Gate;
pub use operator::{
    all_identity, anti, anti_contrib, anti_count, spec_commutes, x_canonical, z_canonical, OpModel,
    PauliOperator,
};
pub use operator::{lemma_commutes_symmetric, lemma_hadamard_twice, lemma_swap_via_cnots};
pub use pauli::{spec_i, spec_x, spec_y, spec_z, Pauli, I, X, Y, Z};
pub use pauli::{lemma_cnot_involution, lemma_hadamard_involution, lemma_phase_involution};
