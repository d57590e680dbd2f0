use remuir::{
    instruction::Instruction,
    machine::{Identifier, Line, Machine, MachineEditError, RuntimeError, TerminationReason},
    memory::{Memory, Register, RegisterNumber},
    program::{Program, ProgramEditError},
};

fn loop_machine() -> Machine {
    let lines: Vec<Line> = vec![
        Line::new(0, Some(Identifier::Label(String::from("loop"))), Instruction::DECJZ(RegisterNumber::Natural(1), Identifier::Halt)),
        Line::new(1, None, Instruction::DECJZ(RegisterNumber::Natural(0), Identifier::Halt)),
        Line::new(2, None, Instruction::DECJZ(RegisterNumber::Natural(2), Identifier::Label(String::from("loop")))),
    ];
    let memory = Memory::new_from_slice(&[Register::from(10), Register::from(5)][..]);
    Machine::new_from_lines(&lines, memory).unwrap()
}

#[test]
fn breakpoint_then_step_then_undo() {
    let mut m = loop_machine();
    assert_eq!(m.toggle_breakpoint(&Identifier::Line(1)), Ok(()));
    assert_eq!(m.debug(), Ok(TerminationReason::Breakpoint));
    assert_eq!(m.get_current_line_number(), 1);
    assert_eq!(m.get_state().get_nat_registers_as_u128(), Some(vec![10, 4]));
    let before = m.get_state().clone();
    assert_eq!(m.step(), Ok(None));
    assert_eq!(m.get_current_line_number(), 2);
    assert_eq!(m.get_state().get_nat_registers_as_u128(), Some(vec![9, 4]));
    assert_eq!(m.undo(), Ok(()));
    assert_eq!(m.get_current_line_number(), 1);
    assert_eq!(m.get_state(), &before);
    assert_eq!(m.undo(), Err(RuntimeError::CannotUndo));
    // Already at the breakpoint: a debug run stays.
    assert_eq!(m.debug(), Ok(TerminationReason::Breakpoint));
    assert_eq!(m.get_current_line_number(), 1);
}

#[test]
fn toggling_twice_removes_the_breakpoint() {
    let mut m = loop_machine();
    assert_eq!(m.toggle_breakpoint(&Identifier::Label(String::from("loop"))), Ok(()));
    assert_eq!(m.toggle_breakpoint(&Identifier::Line(0)), Ok(()));
    assert_eq!(m.debug(), Ok(TerminationReason::Halted));
    assert_eq!(m.display_nat_registers(), "registers 5 0 0");
    assert_eq!(m.step(), Err(RuntimeError::Halted));
}

#[test]
fn breakpoint_errors() {
    let mut m = loop_machine();
    assert_eq!(
        m.toggle_breakpoint(&Identifier::Label(String::from("nope"))),
        Err(MachineEditError::LabelNotFound { label: String::from("nope") })
    );
    assert_eq!(
        m.toggle_breakpoint(&Identifier::Line(9)),
        Err(MachineEditError::LineNumberTooBig { line_num: 9, last_line: 3 })
    );
}

#[test]
fn decjz_on_zero_jumps_and_keeps_register() {
    let mut m = loop_machine();
    assert_eq!(m.go_to_identifier(&Identifier::Line(2)), Ok(()));
    assert_eq!(m.step(), Ok(None));
    assert_eq!(m.get_current_line_number(), 0);
    assert_eq!(m.get_state().get_nat_registers_as_u128(), Some(vec![10, 5, 0]));
}

#[test]
fn decjz_on_nonzero_decrements_and_advances() {
    let mut m = loop_machine();
    assert_eq!(m.step(), Ok(None));
    assert_eq!(m.get_current_line_number(), 1);
    assert_eq!(m.get_state().get_nat_registers_as_u128(), Some(vec![10, 4]));
}

#[test]
fn jump_to_halt_goes_past_the_end() {
    let lines = vec![Line::new(0, None, Instruction::DECJZ(RegisterNumber::Natural(0), Identifier::Halt))];
    let mut m = Machine::new_from_lines(&lines, Memory::new_from_slice(&[])).unwrap();
    assert_eq!(m.step(), Ok(Some(TerminationReason::Halted)));
    assert_eq!(m.get_current_line_number(), 2);
    assert!(m.is_halted());
}

#[test]
fn execute_leaves_the_pointer() {
    let mut m = loop_machine();
    assert_eq!(m.execute(Instruction::INC(RegisterNumber::Natural(3))), None);
    assert_eq!(m.display_register(RegisterNumber::Natural(3)), "1");
    assert_eq!(
        m.execute(Instruction::DECJZ(RegisterNumber::Natural(2), Identifier::Label(String::from("x")))),
        Some(Identifier::Label(String::from("x")))
    );
    assert_eq!(m.execute(Instruction::DECJZ(RegisterNumber::Natural(0), Identifier::Halt)), None);
    assert_eq!(m.display_nat_registers(), "registers 9 5 0 1");
    assert_eq!(m.get_current_line_number(), 0);
}

#[test]
fn reset_and_replace_memory() {
    let mut m = loop_machine();
    m.run();
    m.replace_memory(Memory::new_from_slice(&[Register::from(7)]));
    assert_eq!(m.display_nat_registers(), "registers 7");
    assert!(m.is_halted());
    m.reset();
    assert_eq!(m.get_current_line_number(), 0);
    assert_eq!(m.display_nat_registers(), "registers 10 5");
}

#[test]
fn labels_are_unique() {
    let mut m = loop_machine();
    assert_eq!(
        m.add_new_label(String::from("loop"), 2),
        Err(MachineEditError::LabelAlreadyExists { label: String::from("loop"), line: 0 })
    );
    assert_eq!(m.add_new_label(String::from("third"), 2), Ok(()));
    assert_eq!(m.go_to_identifier(&Identifier::Label(String::from("third"))), Ok(()));
    assert_eq!(m.get_current_line_number(), 2);
}

#[test]
fn repeated_label_in_lines_is_refused() {
    let lines = vec![
        Line::new(0, Some(Identifier::Label(String::from("a"))), Instruction::INC(RegisterNumber::Natural(0))),
        Line::new(1, Some(Identifier::Label(String::from("a"))), Instruction::INC(RegisterNumber::Natural(0))),
    ];
    assert_eq!(
        Machine::new_from_lines(&lines, Memory::new_from_slice(&[])),
        Err(MachineEditError::LabelAlreadyExists { label: String::from("a"), line: 0 })
    );
    assert_eq!(
        Program::new_from_lines(&lines, Memory::new_from_slice(&[])),
        Err(ProgramEditError::LabelAlreadyExists { label: String::from("a"), line: 0 })
    );
}

#[test]
fn empty_program_debug_and_run() {
    let mut m = Machine::new_from_lines(&[], Memory::new_from_slice(&[Register::from(4)])).unwrap();
    assert_eq!(m.debug(), Ok(TerminationReason::Empty));
    m.run();
    assert_eq!(m.display_nat_registers(), "registers 4");
    let mut d = Machine::default();
    assert!(d.is_halted());
    assert_eq!(d.display_nat_registers(), "registers");
}

#[test]
fn step_with_line_hands_back_the_next_line() {
    let mut m = loop_machine();
    let l = m.step_with_line().unwrap().clone();
    assert_eq!(l.line_number, 1);
    let mut h = Machine::new_from_lines(
        &[Line::new(0, None, Instruction::INC(RegisterNumber::Natural(0)))],
        Memory::default(),
    )
    .unwrap();
    assert_eq!(h.step_with_line(), Err(RuntimeError::Halted));
}

#[test]
fn program_runs_and_steps() {
    let lines = vec![
        Line::new(0, None, Instruction::INC(RegisterNumber::Natural(1))),
        Line::new(1, None, Instruction::INC(RegisterNumber::Natural(1))),
    ];
    let mut p = Program::new_from_lines(&lines, Memory::new_from_slice(&[Register::from(1)])).unwrap();
    assert_eq!(p.step(), Ok(()));
    assert_eq!(p.display_nat_registers(), "registers 1 1");
    p.execute();
    assert_eq!(p.display_nat_registers(), "registers 1 2");
    assert_eq!(p.step(), Err(remuir::program::RuntimeError::EndOfProgram));
    assert_eq!(p.get_state().get_nat_registers_as_u128(), Some(vec![1, 2]));
}

#[test]
fn run_for_counts_steps() {
    let mut m = loop_machine();
    assert_eq!(m.run_for(3), 3);
    assert_eq!(m.get_current_line_number(), 0);
    assert_eq!(m.run_for(1000), 13);
    assert!(m.is_halted());
}

#[test]
fn debug_budget_runs_out() {
    let mut m = loop_machine();
    assert_eq!(m.debug_for(2), Ok(TerminationReason::StepLimit));
    assert_eq!(m.get_current_line_number(), 2);
    assert_eq!(m.debug_for(100), Ok(TerminationReason::Halted));
}

#[test]
fn program_edit_errors() {
    let lines = vec![
        Line::new(0, Some(Identifier::Label(String::from("top"))), Instruction::INC(RegisterNumber::Natural(0))),
        Line::new(1, None, Instruction::DECJZ(RegisterNumber::Natural(1), Identifier::Label(String::from("top")))),
    ];
    let mut p = Program::new_from_lines(&lines, Memory::default()).unwrap();
    assert_eq!(
        p.go_to_identifier(&Identifier::Label(String::from("bottom"))),
        Err(ProgramEditError::LabelNotFound { label: String::from("bottom") })
    );
    assert_eq!(
        p.go_to_identifier(&Identifier::Line(3)),
        Err(ProgramEditError::LineNumberTooBig { line_num: 3, last_line: 2 })
    );
    assert_eq!(
        p.add_new_label(String::from("top"), 1),
        Err(ProgramEditError::LabelAlreadyExists { label: String::from("top"), line: 0 })
    );
    assert_eq!(p.add_new_label(String::from("end"), 2), Ok(()));
    assert_eq!(p.go_to_identifier(&Identifier::Label(String::from("end"))), Ok(()));
    assert_eq!(p.step(), Err(remuir::program::RuntimeError::EndOfProgram));
    let bad = vec![Line::new(0, None, Instruction::DECJZ(RegisterNumber::Natural(0), Identifier::Line(5)))];
    assert_eq!(
        Program::new_from_lines(&bad, Memory::default()),
        Err(ProgramEditError::LineNumberTooBig { line_num: 5, last_line: 1 })
    );
}
