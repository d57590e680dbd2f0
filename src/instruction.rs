use vstd::prelude::*;

use crate::machine::{identifier_text, Identifier};
use crate::memory::{register_text, Memory, MemoryModel, RegisterNumber};
use crate::text::push_str;

verus! {

/// One instruction of the machine.
#[derive(Debug, PartialEq, Eq)]
pub enum Instruction {
    /// Increment a register.
    INC(RegisterNumber),
    /// Jump to the target if the register is zero, else decrement it.
    DECJZ(RegisterNumber, Identifier),
}

impl Clone for Instruction {
    fn clone(&self) -> (r: Self)
        ensures
            r == *self,
    {
        match self {
            Instruction::INC(n) => Instruction::INC(*n),
            Instruction::DECJZ(n, id) => Instruction::DECJZ(*n, id.clone()),
        }
    }
}

/// How an instruction is written: `inc r4`, `decjz r-1 loop`.
pub open spec fn instruction_text(ins: Instruction) -> Seq<char> {
    match ins {
        Instruction::INC(n) => seq!['i', 'n', 'c', ' '] + register_text(n),
        Instruction::DECJZ(n, id) => seq!['d', 'e', 'c', 'j', 'z', ' '] + register_text(n) + seq![
            ' ',
        ] + identifier_text(id),
    }
}

impl Instruction {
    /// How the instruction is written: `inc r4`, `decjz r-1 loop`.
    pub fn to_text(&self) -> (r: String)
        ensures
            r@ == instruction_text(*self),
    {
        let mut out = String::new();
        match self {
            Instruction::INC(n) => {
                proof {
                    reveal_strlit("inc ");
                }
                push_str(&mut out, "inc ");
                push_str(&mut out, n.to_text().as_str());
            },
            Instruction::DECJZ(n, id) => {
                proof {
                    reveal_strlit("decjz ");
                    reveal_strlit(" ");
                }
                push_str(&mut out, "decjz ");
                push_str(&mut out, n.to_text().as_str());
                push_str(&mut out, " ");
                push_str(&mut out, id.to_text().as_str());
            },
        }
        out
    }

    /// The register the instruction works on.
    pub open spec fn register(self) -> RegisterNumber {
        match self {
            Instruction::INC(n) => n,
            Instruction::DECJZ(n, _) => n,
        }
    }

    /// The registers after the instruction runs on `m`.
    pub open spec fn memory_after(self, m: MemoryModel) -> MemoryModel {
        match self {
            Instruction::INC(n) => m.after_inc(n),
            Instruction::DECJZ(n, _) => if m.reads_zero(n) {
                m.after_read(n)
            } else {
                m.after_read(n).after_dec(n)
            },
        }
    }

    /// The target to jump to, if the instruction jumps on `m`.
    pub open spec fn jump_on(self, m: MemoryModel) -> Option<Identifier> {
        match self {
            Instruction::INC(_) => None,
            Instruction::DECJZ(n, id) => if m.reads_zero(n) {
                Some(id)
            } else {
                None
            },
        }
    }

    /// Runs the instruction on `memory`: an increment always goes on; a `DECJZ` on a zero
    /// register leaves its value alone and hands back the target, and on another register
    /// decrements it and hands back nothing.
    pub fn execute(&self, memory: &mut Memory) -> (r: Option<Identifier>)
        requires
            old(memory).wf(),
        ensures
            final(memory).wf(),
            final(memory)@ == self.memory_after(old(memory)@),
            r == self.jump_on(old(memory)@),
            r is Some ==> final(memory)@.value_of(self.register()) == old(memory)@.value_of(
                self.register(),
            ),
            (r is None && self is DECJZ) ==> final(memory)@.value_of(self.register()) + 1
                == old(memory)@.value_of(self.register()),
    {
        match self {
            Instruction::INC(register) => {
                memory.inc(*register);
            },
            Instruction::DECJZ(register, ident_to_jump_to) => {
                if memory.is_zero(*register) {
                    return Some(ident_to_jump_to.clone());
                }
                proof {
                    let m = old(memory)@;
                    assert(m.after_read(*register) == m) by {
                        let b = m.bank(*register);
                        assert(crate::memory::zero_filled(b, register.index() + 1) == b);
                        assert(m.with_bank(*register, b) =~= m);
                    }
                }
                memory.dec(*register);
            },
        }
        None
    }
}

} // verus!
