use remuir::{
    instruction::Instruction,
    machine::{Machine, MachineEditError},
    memory::{Memory, Register, RegisterNumber},
    parser::{
        parse_dec, parse_decjz, parse_inc, parse_label, parse_register_line, parse_register_number, parse_str,
        ParseSourceError, RegisterParseError,
    },
    program::{Identifier, Line},
};

fn example1_string() -> String {
    String::from("registers 1 2 3
inc r4
some_label: decjz r0 HALT
decjz r-1 some_label")
}
fn example1_program() -> Machine {
    let lines: Vec<Line> = vec![
        Line::new(0, None, Instruction::INC(RegisterNumber::Natural(4))),
        Line::new(1, Some(Identifier::Label(String::from("some_label"))), Instruction::DECJZ(RegisterNumber::Natural(0), Identifier::Halt)),
        Line::new(2, None, Instruction::DECJZ(RegisterNumber::Negative(1), Identifier::Label(String::from("some_label")))),
    ];
    let memory = Memory::new_from_slice(&[
        Register::new_from_u128(1),
        Register::new_from_u128(2),
        Register::new_from_u128(3),
    ][..]);
    Machine::new_from_lines(&lines, memory).unwrap()
}
fn example2_string() -> String {
    String::from("registers 10 5
loop: decjz r1 halt
decjz r0 halt
decjz r2 loop")
}
fn example2_program() -> Machine {
    let lines: Vec<Line> = vec![
        Line::new(0, Some(Identifier::Label(String::from("loop"))), Instruction::DECJZ(RegisterNumber::Natural(1), Identifier::Halt)),
        Line::new(1, None, Instruction::DECJZ(RegisterNumber::Natural(0), Identifier::Halt)),
        Line::new(2, None, Instruction::DECJZ(RegisterNumber::Natural(2), Identifier::Label(String::from("loop")))),
    ];
    let memory = Memory::new_from_slice(&[
        Register::new_from_u128(10),
        Register::new_from_u128(5),
    ][..]);
    Machine::new_from_lines(&lines, memory).unwrap()
}

#[test]
fn parse_correctly() {
    let prog = parse_str(&example1_string()).unwrap();
    let prog_control = example1_program();
    assert_eq!(prog, prog_control)
}

#[test]
fn parse_example2() {
    let prog = parse_str(&example2_string()).unwrap();
    let prog_control = example2_program();
    assert_eq!(prog, prog_control)
}

#[test]
fn new_lines() {
    let input = String::from("
registers 3

beginning: decjz r0 even_halt
decjz r0 odd_halt
decjz r-1 beginning

even_halt: decjz r-1 HALT

odd_halt: inc r0
decjz r-1 HALT
");
    let mut prog = parse_str(&input).unwrap();
    prog.run();
    let output = prog.display_nat_registers();
    let expected_output = String::from("registers 1");
    assert_eq!(expected_output, output)
}

#[test]
fn example_builds_three_lines_with_label_resolved() {
    let mut m = parse_str(&example1_string()).unwrap();
    assert_eq!(m.get_state().get_nat_registers_as_u128(), Some(vec![1, 2, 3]));
    assert_eq!(m.go_to_identifier(&Identifier::Line(2)), Ok(()));
    assert_eq!(
        m.peek_next_line().instruction,
        Instruction::DECJZ(RegisterNumber::Negative(1), Identifier::Line(1))
    );
    assert_eq!(m.go_to_identifier(&Identifier::Line(3)), Ok(()));
    assert!(m.is_halted());
    assert_eq!(
        m.go_to_identifier(&Identifier::Line(4)),
        Err(MachineEditError::LineNumberTooBig { line_num: 4, last_line: 3 })
    );
    assert_eq!(m.go_to_identifier(&Identifier::Label(String::from("some_label"))), Ok(()));
    assert_eq!(m.get_current_line_number(), 1);
}

#[test]
fn repeated_label_is_refused() {
    let source = "registers 1\na: inc r0\na: inc r1";
    assert_eq!(
        parse_str(source),
        Err(ParseSourceError::InvalidProgram(MachineEditError::LabelAlreadyExists {
            label: String::from("a"),
            line: 0,
        }))
    );
}

#[test]
fn unknown_label_is_refused() {
    let source = "registers 1\ndecjz r0 nowhere";
    assert_eq!(
        parse_str(source),
        Err(ParseSourceError::InvalidProgram(MachineEditError::LabelNotFound {
            label: String::from("nowhere"),
        }))
    );
}

#[test]
fn missing_registers_line_is_refused() {
    assert_eq!(parse_str("inc r0"), Err(ParseSourceError::NoInitialRegisters));
    assert_eq!(parse_str(""), Err(ParseSourceError::NoInitialRegisters));
}

#[test]
fn bad_syntax_names_its_line() {
    assert_eq!(parse_str("registers 1\n\nfoo r0"), Err(ParseSourceError::SyntaxError { line: 3 }));
    assert_eq!(parse_str("registers x"), Err(ParseSourceError::SyntaxError { line: 1 }));
}

#[test]
fn operand_counts_are_checked() {
    assert_eq!(
        parse_inc("inc r1 r2"),
        Err(ParseSourceError::TooManyArgument { received: 2, instruction: String::from("inc"), expected: 1 })
    );
    assert_eq!(
        parse_decjz("decjz r1"),
        Err(ParseSourceError::TooFewArguments { received: 1, instruction: String::from("decjz"), expected: 2 })
    );
}

#[test]
fn single_instructions_parse() {
    assert_eq!(parse_inc("inc r-7"), Ok(Instruction::INC(RegisterNumber::Negative(7))));
    assert_eq!(
        parse_decjz("decjz r3 Halt"),
        Ok(Instruction::DECJZ(RegisterNumber::Natural(3), Identifier::Halt))
    );
    assert_eq!(parse_dec("dec r2"), Ok(Instruction::DECJZ(RegisterNumber::Natural(2), Identifier::Halt)));
    assert_eq!(parse_label("hAlT"), Identifier::Halt);
    assert_eq!(parse_label("halting"), Identifier::Label(String::from("halting")));
    let m = parse_register_line("registers 0 340282366920938463463374607431768211455").unwrap();
    assert_eq!(m.get_nat_registers_as_u128(), Some(vec![0, u128::MAX]));
    assert!(parse_register_line("registers 340282366920938463463374607431768211456").is_err());
}

#[test]
fn register_names() {
    assert_eq!(parse_register_number("r12"), Ok(RegisterNumber::Natural(12)));
    assert_eq!(parse_register_number("r-3"), Ok(RegisterNumber::Negative(3)));
    assert_eq!(parse_register_number("x1"), Err(RegisterParseError::MissingR));
    assert_eq!(parse_register_number(""), Err(RegisterParseError::MissingR));
    assert_eq!(parse_register_number("r-"), Err(RegisterParseError::NotInt));
    assert_eq!(parse_register_number("r1a"), Err(RegisterParseError::NotInt));
    assert_eq!("r7".parse::<RegisterNumber>(), Ok(RegisterNumber::Natural(7)));
    assert_eq!("HALT".parse::<Identifier>(), Ok(Identifier::Halt));
    assert_eq!("loop".parse::<Identifier>(), Ok(Identifier::Label(String::from("loop"))));
}
