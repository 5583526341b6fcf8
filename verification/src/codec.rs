use vstd::prelude::*;
use vstd::string::*;

use crate::gate::Gate;
use crate::operator::{OpModel, PauliOperator};
use crate::pauli::{spec_i, spec_x, spec_y, spec_z, Pauli, I, X, Y, Z};

verus! {

/// The letter naming a unit.
pub open spec fn letter_of(p: Pauli) -> char {
    if p == spec_i() {
        'I'
    } else if p == spec_x() {
        'X'
    } else if p == spec_y() {
        'Y'
    } else {
        'Z'
    }
}

/// The unit a letter stands for.
pub open spec fn pauli_of(c: char) -> Pauli {
    if c == 'I' {
        spec_i()
    } else if c == 'X' {
        spec_x()
    } else if c == 'Y' {
        spec_y()
    } else {
        spec_z()
    }
}

/// A letter is one of the four unit names.
pub open spec fn valid_letter(c: char) -> bool {
    c == 'I' || c == 'X' || c == 'Y' || c == 'Z'
}

/// A well-formed operator text: a sign character, then one letter per
/// qubit, at least one.
pub open spec fn valid_syntax(s: Seq<char>) -> bool {
    &&& s.len() >= 2
    &&& (s[0] == '+' || s[0] == '-')
    &&& forall|k: int| 1 <= k < s.len() ==> valid_letter(s[k])
}

/// The text an operator encodes to: its sign character, then its letters.
pub open spec fn encode_of(o: OpModel) -> Seq<char> {
    seq![
        if o.sign {
            '-'
        } else {
            '+'
        },
    ] + Seq::new(o.units.len(), |k: int| letter_of(o.units[k]))
}

/// Why an operator text was rejected.
#[derive(Clone, Copy, PartialEq, Eq, Structural, Debug)]
pub enum ParseError {
    /// The text does not begin with '+' or '-'.
    Sign,
    /// A character after the sign is not one of 'I', 'X', 'Y', 'Z'.
    Letter,
}

impl Pauli {
    /// This unit's letter as text.
    pub fn render(&self) -> (r: String)
        ensures
            r@ == seq![letter_of(*self)],
    {
        let s = if !self.x && !self.z {
            "I"
        } else if self.x && !self.z {
            "X"
        } else if self.x && self.z {
            "Y"
        } else {
            "Z"
        };
        proof {
            reveal_strlit("I");
            reveal_strlit("X");
            reveal_strlit("Y");
            reveal_strlit("Z");
            assert(s@ =~= seq![letter_of(*self)]);
        }
        String::from_str(s)
    }
}

impl PauliOperator {
    /// Decode an operator from its textual form: a sign character, then one
    /// letter per qubit.
    pub fn parse(s: &str) -> (r: Result<PauliOperator, ParseError>)
        ensures
            match r {
                Ok(op) => {
                    &&& s@.len() >= 1
                    &&& (s@[0] == '+' || s@[0] == '-')
                    &&& (forall|k: int| 1 <= k < s@.len() ==> valid_letter(s@[k]))
                    &&& op.sign == (s@[0] == '-')
                    &&& op.ops@.len() == s@.len() - 1
                    &&& (forall|k: int| 0 <= k < op.ops@.len() ==> op.ops@[k] == pauli_of(s@[k + 1]))
                },
                Err(ParseError::Sign) => s@.len() == 0 || (s@[0] != '+' && s@[0] != '-'),
                Err(ParseError::Letter) => {
                    &&& s@.len() >= 1
                    &&& (s@[0] == '+' || s@[0] == '-')
                    &&& exists|k: int| 1 <= k < s@.len() && !valid_letter(s@[k])
                },
            },
    {
        let len = s.unicode_len();
        if len == 0 {
            return Err(ParseError::Sign);
        }
        let c0 = s.get_char(0);
        let sign = if c0 == '-' {
            true
        } else if c0 == '+' {
            false
        } else {
            return Err(ParseError::Sign);
        };
        let mut ops: Vec<Pauli> = Vec::new();
        let mut i: usize = 1;
        while i < len
            invariant
                1 <= i <= len,
                len == s@.len(),
                sign == (s@[0] == '-'),
                s@[0] == '+' || s@[0] == '-',
                ops@.len() == i - 1,
                forall|k: int| 1 <= k < i ==> valid_letter(s@[k]),
                forall|k: int| 0 <= k < ops@.len() ==> ops@[k] == pauli_of(s@[k + 1]),
            decreases len - i,
        {
            let c = s.get_char(i);
            let p = if c == 'I' {
                I()
            } else if c == 'X' {
                X()
            } else if c == 'Y' {
                Y()
            } else if c == 'Z' {
                Z()
            } else {
                return Err(ParseError::Letter);
            };
            ops.push(p);
            i += 1;
        }
        Ok(PauliOperator { ops, sign })
    }

    /// The textual form of this operator: its sign character, then one
    /// letter per qubit.
    pub fn encode(&self) -> (r: String)
        ensures
            r@ == encode_of(self@),
    {
        let mut out = if self.sign {
            String::from_str("-")
        } else {
            String::from_str("+")
        };
        proof {
            reveal_strlit("-");
            reveal_strlit("+");
        }
        let mut i: usize = 0;
        while i < self.ops.len()
            invariant
                i <= self.ops@.len(),
                out@.len() == 1 + i,
                out@[0] == (if self.sign {
                    '-'
                } else {
                    '+'
                }),
                forall|k: int| 0 <= k < i ==> out@[k + 1] == letter_of(self.ops@[k]),
            decreases self.ops@.len() - i,
        {
            let p = self.ops[i];
            if p == I() {
                out.append("I");
            } else if p == X() {
                out.append("X");
            } else if p == Y() {
                out.append("Y");
            } else {
                out.append("Z");
            }
            proof {
                reveal_strlit("I");
                reveal_strlit("X");
                reveal_strlit("Y");
                reveal_strlit("Z");
            }
            i += 1;
        }
        proof {
            assert(out@ =~= encode_of(self@));
        }
        out
    }
}

/// The debug rendering of an operator: its textual form, then a row marking
/// the set X bits and a row marking the set Z bits.
pub open spec fn render_of(o: OpModel) -> Seq<char> {
    encode_of(o) + seq![' ', '-', ' '] + Seq::new(
        o.units.len(),
        |k: int|
            if o.units[k].x {
                'X'
            } else {
                '_'
            },
    ) + seq!['|'] + Seq::new(
        o.units.len(),
        |k: int|
            if o.units[k].z {
                'Z'
            } else {
                '_'
            },
    )
}

impl PauliOperator {
    /// The debug rendering: the textual form, then the X-bit row and the
    /// Z-bit row separated by `|`.
    pub fn render(&self) -> (r: String)
        ensures
            r@ == render_of(self@),
    {
        let ghost head = encode_of(self@) + seq![' ', '-', ' '];
        let ghost xrow = Seq::new(
            self.ops@.len(),
            |k: int|
                if self.ops@[k].x {
                    'X'
                } else {
                    '_'
                },
        );
        let ghost zrow = Seq::new(
            self.ops@.len(),
            |k: int|
                if self.ops@[k].z {
                    'Z'
                } else {
                    '_'
                },
        );
        let mut out = self.encode();
        out.append(" - ");
        proof {
            reveal_strlit(" - ");
            assert(out@ =~= head + xrow.take(0));
        }
        let mut i: usize = 0;
        while i < self.ops.len()
            invariant
                i <= self.ops@.len(),
                xrow.len() == self.ops@.len(),
                xrow == Seq::new(
                    self.ops@.len(),
                    |k: int|
                        if self.ops@[k].x {
                            'X'
                        } else {
                            '_'
                        },
                ),
                out@ == head + xrow.take(i as int),
            decreases self.ops@.len() - i,
        {
            if self.ops[i].x {
                out.append("X");
            } else {
                out.append("_");
            }
            proof {
                reveal_strlit("X");
                reveal_strlit("_");
                assert(out@ =~= head + xrow.take(i + 1));
            }
            i += 1;
        }
        out.append("|");
        proof {
            reveal_strlit("|");
            assert(xrow.take(self.ops@.len() as int) =~= xrow);
            assert(out@ =~= head + xrow + seq!['|'] + zrow.take(0));
        }
        let ghost head2 = head + xrow + seq!['|'];
        let mut k: usize = 0;
        while k < self.ops.len()
            invariant
                k <= self.ops@.len(),
                zrow.len() == self.ops@.len(),
                zrow == Seq::new(
                    self.ops@.len(),
                    |q: int|
                        if self.ops@[q].z {
                            'Z'
                        } else {
                            '_'
                        },
                ),
                out@ == head2 + zrow.take(k as int),
            decreases self.ops@.len() - k,
        {
            if self.ops[k].z {
                out.append("Z");
            } else {
                out.append("_");
            }
            proof {
                reveal_strlit("Z");
                reveal_strlit("_");
                assert(out@ =~= head2 + zrow.take(k + 1));
            }
            k += 1;
        }
        proof {
            assert(zrow.take(self.ops@.len() as int) =~= zrow);
            assert(out@ =~= render_of(self@));
        }
        out
    }
}

/// The character for one decimal digit.
pub open spec fn digit_char(d: nat) -> char {
    if d == 0 {
        '0'
    } else if d == 1 {
        '1'
    } else if d == 2 {
        '2'
    } else if d == 3 {
        '3'
    } else if d == 4 {
        '4'
    } else if d == 5 {
        '5'
    } else if d == 6 {
        '6'
    } else if d == 7 {
        '7'
    } else if d == 8 {
        '8'
    } else {
        '9'
    }
}

/// The decimal digits of a number, most significant first.
pub open spec fn dec_digits(v: nat) -> Seq<char>
    decreases v,
{
    if v < 10 {
        seq![digit_char(v)]
    } else {
        dec_digits(v / 10).push(digit_char(v % 10))
    }
}

/// One decimal digit as text.
fn digit_str(d: usize) -> (r: &'static str)
    requires
        d < 10,
    ensures
        r@ == seq![digit_char(d as nat)],
{
    let s: &'static str = if d == 0 {
        "0"
    } else if d == 1 {
        "1"
    } else if d == 2 {
        "2"
    } else if d == 3 {
        "3"
    } else if d == 4 {
        "4"
    } else if d == 5 {
        "5"
    } else if d == 6 {
        "6"
    } else if d == 7 {
        "7"
    } else if d == 8 {
        "8"
    } else {
        "9"
    };
    proof {
        reveal_strlit("0");
        reveal_strlit("1");
        reveal_strlit("2");
        reveal_strlit("3");
        reveal_strlit("4");
        reveal_strlit("5");
        reveal_strlit("6");
        reveal_strlit("7");
        reveal_strlit("8");
        reveal_strlit("9");
        assert(s@ =~= seq![digit_char(d as nat)]);
    }
    s
}

/// A qubit index rendered in decimal, most significant digit first.
fn dec_str(v: usize) -> (r: String)
    ensures
        r@ == dec_digits(v as nat),
    decreases v,
{
    if v < 10 {
        String::from_str(digit_str(v))
    } else {
        let mut s = dec_str(v / 10);
        s.append(digit_str(v % 10));
        proof {
            assert(s@ =~= dec_digits(v as nat));
        }
        s
    }
}

/// The one-line textual form of a gate, e.g. `CNot(0, 2)`.
pub open spec fn gate_text(g: Gate) -> Seq<char> {
    match g {
        Gate::Hadamard(a) => "Hadamard("@ + dec_digits(a as nat) + ")"@,
        Gate::Phase(a) => "Phase("@ + dec_digits(a as nat) + ")"@,
        Gate::CNot(a, b) => "CNot("@ + dec_digits(a as nat) + ", "@ + dec_digits(b as nat) + ")"@,
        Gate::Swap(a, b) => "Swap("@ + dec_digits(a as nat) + ", "@ + dec_digits(b as nat) + ")"@,
    }
}

impl Gate {
    /// This gate's textual form, e.g. `CNot(0, 2)`.
    pub fn render(&self) -> (r: String)
        ensures
            r@ == gate_text(*self),
    {
        match self {
            Gate::Hadamard(a) => {
                let mut out = String::from_str("Hadamard(");
                let d = dec_str(*a);
                out.append(d.as_str());
                out.append(")");
                proof {
                    assert(out@ =~= gate_text(*self));
                }
                out
            },
            Gate::Phase(a) => {
                let mut out = String::from_str("Phase(");
                let d = dec_str(*a);
                out.append(d.as_str());
                out.append(")");
                proof {
                    assert(out@ =~= gate_text(*self));
                }
                out
            },
            Gate::CNot(a, b) => {
                let mut out = String::from_str("CNot(");
                let d = dec_str(*a);
                out.append(d.as_str());
                out.append(", ");
                let e = dec_str(*b);
                out.append(e.as_str());
                out.append(")");
                proof {
                    assert(out@ =~= gate_text(*self));
                }
                out
            },
            Gate::Swap(a, b) => {
                let mut out = String::from_str("Swap(");
                let d = dec_str(*a);
                out.append(d.as_str());
                out.append(", ");
                let e = dec_str(*b);
                out.append(e.as_str());
                out.append(")");
                proof {
                    assert(out@ =~= gate_text(*self));
                }
                out
            },
        }
    }
}

/// Law: decoding a well-formed operator text and encoding the result
/// reproduces the text exactly, sign and letters alike.
pub proof fn lemma_parse_encode_round_trip(s: Seq<char>, o: OpModel)
    requires
        valid_syntax(s),
        o.sign == (s[0] == '-'),
        o.units.len() == s.len() - 1,
        forall|k: int| 0 <= k < o.units.len() ==> o.units[k] == pauli_of(s[k + 1]),
    ensures
        encode_of(o) == s,
{
    assert forall|k: int| 0 <= k < s.len() implies encode_of(o)[k] == s[k] by {
        if k >= 1 {
            assert(valid_letter(s[k]));
            assert(o.units[k - 1] == pauli_of(s[k]));
        }
    }
    assert(encode_of(o) =~= s);
}

} // verus!
