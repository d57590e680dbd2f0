use remuir::{
    instruction::Instruction,
    machine::{Identifier, Line},
    memory::RegisterNumber,
    parser::ParseSourceError,
    session::{parse_command, Command, Mode, TargetError},
};

#[test]
fn keywords_are_commands() {
    assert_eq!(parse_command("q"), Command::Quit);
    assert_eq!(parse_command("exit"), Command::Quit);
    assert_eq!(parse_command("h"), Command::Help);
    assert_eq!(parse_command("p"), Command::Play);
    assert_eq!(parse_command("r"), Command::Reset);
    assert_eq!(parse_command("step"), Command::Step);
    assert_eq!(parse_command("u"), Command::Undo);
    assert_eq!(parse_command("frobnicate"), Command::Unknown);
    assert_eq!(parse_command(""), Command::Unknown);
}

#[test]
fn instruction_commands() {
    assert_eq!(parse_command("inc r2"), Command::Inc(Ok(Instruction::INC(RegisterNumber::Natural(2)))));
    assert_eq!(
        parse_command("decjz r-1 somewhere"),
        Command::Decjz(Ok(Instruction::DECJZ(RegisterNumber::Negative(1), Identifier::Label(String::from("somewhere")))))
    );
    assert_eq!(parse_command("dec r0"), Command::Dec(Ok(Instruction::DECJZ(RegisterNumber::Natural(0), Identifier::Halt))));
    assert_eq!(parse_command("inc x"), Command::Inc(Err(ParseSourceError::SyntaxError { line: 1 })));
    match parse_command("registers 4 5") {
        Command::SetRegisters(m) => assert_eq!(m.get_nat_registers_as_u128(), Some(vec![4, 5])),
        other => panic!("unexpected {other:?}"),
    }
}

#[test]
fn breakpoint_targets() {
    assert_eq!(parse_command("b 3"), Command::Breakpoint(Ok(Identifier::Line(3))));
    assert_eq!(parse_command("breakpoint loop"), Command::Breakpoint(Ok(Identifier::Label(String::from("loop")))));
    assert_eq!(parse_command("break"), Command::Breakpoint(Err(TargetError::Missing)));
    assert_eq!(parse_command("b HALT"), Command::Breakpoint(Err(TargetError::Halt)));
    assert_eq!(
        parse_command("b 99999999999999999999999999"),
        Command::Breakpoint(Err(TargetError::LineTooLarge))
    );
}

#[test]
fn modes() {
    assert!(Mode::Debug.is_debug());
    assert!(!Mode::Repl.is_debug());
    assert_eq!(Mode::Debug.name(), "debug");
    assert_eq!(Mode::Repl.name(), "REPL");
}

#[test]
fn lines_and_instructions_as_text() {
    let l = Line::new(
        1,
        Some(Identifier::Label(String::from("some_label"))),
        Instruction::DECJZ(RegisterNumber::Natural(0), Identifier::Halt),
    );
    assert_eq!(l.to_text(), "1    some_label: decjz r0 HALT");
    let m = Line::new(12, None, Instruction::INC(RegisterNumber::Negative(40)));
    assert_eq!(m.to_text(), "12    inc r-40");
    assert_eq!(Identifier::Line(305).to_text(), "305");
    assert_eq!(RegisterNumber::Natural(1234567890).to_text(), "r1234567890");
}

#[test]
fn debugger_only_commands() {
    assert!(parse_command("p").needs_debug());
    assert!(parse_command("s").needs_debug());
    assert!(parse_command("u").needs_debug());
    assert!(parse_command("b 1").needs_debug());
    assert!(!parse_command("r").needs_debug());
    assert!(!parse_command("inc r0").needs_debug());
}
