//! A program that runs to its end, without the debugger's breakpoints and undo.
use vstd::prelude::*;

pub use crate::instruction::Instruction;
pub use crate::machine::{Identifier, Line};

use crate::machine::{build_error, buildable, built_model, Machine, MachineEditError, MachineModel};
use crate::memory::{registers_line, Memory};
use crate::vecmap::lookup;

verus! {

/// Why an edit of a program failed.
#[derive(Debug, PartialEq)]
pub enum ProgramEditError {
    /// The label is bound already, to `line`.
    LabelAlreadyExists { label: String, line: usize },
    /// No line declares the label.
    LabelNotFound { label: String },
    /// The line number is past `last_line`, the largest one that may be named.
    LineNumberTooBig { line_num: usize, last_line: usize },
}

/// Why a step failed.
#[derive(Debug, PartialEq)]
pub enum RuntimeError {
    /// The pointer is at or past the end.
    EndOfProgram,
}

/// The program error for a machine error.
pub open spec fn program_error(e: MachineEditError) -> ProgramEditError {
    match e {
        MachineEditError::LabelAlreadyExists { label, line } => ProgramEditError::LabelAlreadyExists {
            label,
            line,
        },
        MachineEditError::LabelNotFound { label } => ProgramEditError::LabelNotFound { label },
        MachineEditError::LineNumberTooBig { line_num, last_line } =>
            ProgramEditError::LineNumberTooBig { line_num, last_line },
    }
}

fn to_program_error(e: MachineEditError) -> (r: ProgramEditError)
    ensures
        r == program_error(e),
{
    match e {
        MachineEditError::LabelAlreadyExists { label, line } => ProgramEditError::LabelAlreadyExists {
            label,
            line,
        },
        MachineEditError::LabelNotFound { label } => ProgramEditError::LabelNotFound { label },
        MachineEditError::LineNumberTooBig { line_num, last_line } =>
            ProgramEditError::LineNumberTooBig { line_num, last_line },
    }
}

/// A counter program with its registers and its pointer.
#[derive(Debug, PartialEq)]
pub struct Program {
    machine: Machine,
}

impl View for Program {
    type V = MachineModel;

    closed spec fn view(&self) -> MachineModel {
        self.machine@
    }
}

impl Program {
    pub open spec fn wf(&self) -> bool {
        self@.wf()
    }

    /// A program for the lines, built as a machine is: labels bound to their lines' indices
    /// and jumps to labels made jumps to those indices.
    pub fn new_from_lines(lines_slice: &[Line], memory: Memory) -> (r: Result<
        Program,
        ProgramEditError,
    >)
        requires
            memory.wf(),
            lines_slice@.len() < usize::MAX,
        ensures
            r is Ok <==> buildable(lines_slice@),
            r matches Ok(p) ==> p.wf() && p@ == built_model(lines_slice@, memory@),
            r matches Err(e) ==> exists|me: MachineEditError|
                e == program_error(me) && build_error(lines_slice@, me),
    {
        match Machine::new_from_lines(lines_slice, memory) {
            Ok(machine) => Ok(Program { machine }),
            Err(e) => Err(to_program_error(e)),
        }
    }

    /// Binds `label` to `line_number`; fails, changing nothing, if it is bound already.
    pub fn add_new_label(&mut self, label: String, line_number: usize) -> (r: Result<
        (),
        ProgramEditError,
    >)
        requires
            old(self).wf(),
        ensures
            final(self).wf(),
            lookup(old(self)@.labels, label@) matches Some(l) ==> r == Err::<(), ProgramEditError>(
                (ProgramEditError::LabelAlreadyExists { label, line: l }),
            ) && final(self)@ == old(self)@,
            lookup(old(self)@.labels, label@) is None ==> r is Ok && final(self)@ == (MachineModel {
                labels: old(self)@.labels.push((label, line_number)),
                ..old(self)@
            }),
    {
        match self.machine.add_new_label(label, line_number) {
            Ok(()) => Ok(()),
            Err(e) => Err(to_program_error(e)),
        }
    }

    /// Moves the pointer to the line that `id` names: the halt goes one past the end.
    pub fn go_to_identifier(&mut self, id: &Identifier) -> (r: Result<(), ProgramEditError>)
        requires
            old(self).wf(),
        ensures
            final(self).wf(),
            r is Ok <==> old(self)@.resolve(*id) is Some,
            r matches Err(e) ==> e == program_error(old(self)@.resolve_error(*id)) && final(self)@
                == old(self)@,
            old(self)@.resolve(*id) matches Some(n) ==> final(self)@ == (MachineModel {
                pointer: n,
                ..old(self)@
            }),
    {
        match self.machine.go_to_identifier(id) {
            Ok(()) => Ok(()),
            Err(e) => Err(to_program_error(e)),
        }
    }

    /// Runs until the program halts. A program with no lines changes nothing. A program
    /// that has not halted after `u64::MAX` steps is left where it stands.
    pub fn execute(&mut self)
        requires
            old(self).wf(),
        ensures
            final(self).wf(),
            exists|k: nat|
                k <= u64::MAX && final(self)@ == old(self)@.run_steps(k) && (final(self)@.halted()
                    || k == u64::MAX),
    {
        self.machine.run();
    }

    /// Runs the line at the pointer; fails, changing nothing, at or past the end.
    pub fn step(&mut self) -> (r: Result<(), RuntimeError>)
        requires
            old(self).wf(),
        ensures
            final(self).wf(),
            old(self)@.halted() ==> r == Err::<(), RuntimeError>(RuntimeError::EndOfProgram)
                && final(self)@ == old(self)@,
            !old(self)@.halted() ==> r is Ok && final(self)@ == old(self)@.after_step(),
    {
        if self.machine.is_halted() {
            return Err(RuntimeError::EndOfProgram);
        }
        self.step_unchecked();
        Ok(())
    }

    /// Runs the line at the pointer, which must not be at or past the end.
    fn step_unchecked(&mut self)
        requires
            old(self).wf(),
            !old(self)@.halted(),
        ensures
            final(self).wf(),
            final(self)@ == old(self)@.after_step(),
    {
        self.machine.step_unchecked();
    }

    /// The line that shows the natural registers: `registers 5 0 0`.
    pub fn display_nat_registers(&self) -> (r: String)
        requires
            self.wf(),
        ensures
            r@ == registers_line(self@.memory),
    {
        self.machine.display_nat_registers()
    }

    /// The registers.
    pub fn get_state(&self) -> (r: &Memory)
        ensures
            r@ == self@.memory,
    {
        self.machine.get_state()
    }
}

} // verus!
