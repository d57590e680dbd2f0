//! The commands of the interactive modes, read from a line of input.
use vstd::prelude::*;
use vstd::string::StrSliceExecFns;

use crate::instruction::Instruction;
use crate::machine::Identifier;
use crate::memory::Memory;
use crate::parser::{
    parse_dec, parse_decjz, parse_inc, parse_register_line, register_words, spells_registers,
    ParseSourceError,
};
use crate::words::{
    all_digits, chars_of, is_halt, is_halt_word, lemma_splits_unique, number_word, parse_number,
    split_words, splits, word, word_is,
};

verus! {

/// The interactive mode: a debugger on a program, or a REPL on bare registers.
#[derive(Debug, Clone, Copy, PartialEq, Eq)]
pub enum Mode {
    Debug,
    Repl,
}

impl Mode {
    /// Whether the mode is the debugger.
    pub fn is_debug(&self) -> (r: bool)
        ensures
            r == (*self is Debug),
    {
        match self {
            Mode::Debug => true,
            Mode::Repl => false,
        }
    }

    /// The name of the mode, as shown to the user.
    pub fn name(&self) -> (r: &'static str)
        ensures
            *self is Debug ==> r@ == seq!['d', 'e', 'b', 'u', 'g'],
            *self is Repl ==> r@ == seq!['R', 'E', 'P', 'L'],
    {
        match self {
            Mode::Debug => {
                proof {
                    reveal_strlit("debug");
                }
                "debug"
            },
            Mode::Repl => {
                proof {
                    reveal_strlit("REPL");
                }
                "REPL"
            },
        }
    }
}

/// Why a breakpoint command names no target.
#[derive(Debug, Clone, Copy, PartialEq, Eq)]
pub enum TargetError {
    /// No label or line number follows the command.
    Missing,
    /// The line number does not fit in a `usize`.
    LineTooLarge,
    /// The halt cannot carry a breakpoint.
    Halt,
}

/// A command of the interactive modes.
#[derive(Debug, PartialEq)]
pub enum Command {
    /// `exit`, `quit`, `q`.
    Quit,
    /// `help`, `h`.
    Help,
    /// `play`, `p`: a debug run.
    Play,
    /// `reset`, `r`.
    Reset,
    /// `step`, `s`.
    Step,
    /// `undo`, `u`.
    Undo,
    /// `registers 1 2 3`: new registers.
    SetRegisters(Memory),
    /// `inc rN`, as parsed.
    Inc(Result<Instruction, ParseSourceError>),
    /// `decjz rN target`, as parsed.
    Decjz(Result<Instruction, ParseSourceError>),
    /// `dec rN`, as parsed.
    Dec(Result<Instruction, ParseSourceError>),
    /// `breakpoint`, `break` or `b`, then a label or a line number.
    Breakpoint(Result<Identifier, TargetError>),
    /// Anything else.
    Unknown,
}

impl Command {
    /// Whether the command works in the debugger only: a debug run, a step, an undo, a
    /// breakpoint.
    pub fn needs_debug(&self) -> (r: bool)
        ensures
            r == (self is Play || self is Step || self is Undo || self is Breakpoint),
    {
        match self {
            Command::Play | Command::Step | Command::Undo | Command::Breakpoint(_) => true,
            _ => false,
        }
    }
}

/// The first word of `s` is `kw`.
pub open spec fn first_word_is(s: Seq<char>, kw: Seq<char>) -> bool {
    exists|w: Seq<(usize, usize)>| splits(s, 0, s.len() as int, w) && w.len() > 0 && word(s, w[0]) == kw
}

/// `s` is a line of initial registers.
pub open spec fn is_registers_line(s: Seq<char>) -> bool {
    exists|w: Seq<(usize, usize)>| splits(s, 0, s.len() as int, w) && spells_registers(s, w)
}

/// `s` is one keyword of a command.
pub open spec fn is_keyword(s: Seq<char>) -> bool {
    s == "exit"@ || s == "quit"@ || s == "q"@ || s == "help"@ || s == "h"@ || s == "play"@ || s
        == "p"@ || s == "reset"@ || s == "r"@ || s == "step"@ || s == "s"@ || s == "undo"@ || s
        == "u"@
}

/// The command of a line that is one keyword, if it is one.
fn keyword_command(input: &str) -> (r: Option<Command>)
    ensures
        r is Some <==> is_keyword(input@),
        r matches Some(c) ==> !(c is SetRegisters),
        (input@ == "exit"@ || input@ == "quit"@ || input@ == "q"@) ==> r == Some(Command::Quit),
        (input@ == "help"@ || input@ == "h"@) ==> r == Some(Command::Help),
        (input@ == "play"@ || input@ == "p"@) ==> r == Some(Command::Play),
        (input@ == "reset"@ || input@ == "r"@) ==> r == Some(Command::Reset),
        (input@ == "step"@ || input@ == "s"@) ==> r == Some(Command::Step),
        (input@ == "undo"@ || input@ == "u"@) ==> r == Some(Command::Undo),
{
    proof {
        reveal_strlit("exit");
        reveal_strlit("quit");
        reveal_strlit("q");
        reveal_strlit("help");
        reveal_strlit("h");
        reveal_strlit("play");
        reveal_strlit("p");
        reveal_strlit("reset");
        reveal_strlit("r");
        reveal_strlit("step");
        reveal_strlit("s");
        reveal_strlit("undo");
        reveal_strlit("u");
        assert("exit"@.len() == 4 && "exit"@[0] == 'e');
        assert("quit"@.len() == 4 && "quit"@[0] == 'q');
        assert("q"@.len() == 1 && "q"@[0] == 'q');
        assert("help"@.len() == 4 && "help"@[0] == 'h');
        assert("h"@.len() == 1 && "h"@[0] == 'h');
        assert("play"@.len() == 4 && "play"@[0] == 'p');
        assert("p"@.len() == 1 && "p"@[0] == 'p');
        assert("reset"@.len() == 5 && "reset"@[0] == 'r');
        assert("r"@.len() == 1 && "r"@[0] == 'r');
        assert("step"@.len() == 4 && "step"@[0] == 's');
        assert("s"@.len() == 1 && "s"@[0] == 's');
        assert("undo"@.len() == 4 && "undo"@[0] == 'u');
        assert("u"@.len() == 1 && "u"@[0] == 'u');
    }
    let chars = chars_of(input);
    let n = chars.len();
    proof {
        assert(chars@.subrange(0, n as int) =~= input@);
    }
    if word_is(&chars, 0, n, "exit") || word_is(&chars, 0, n, "quit") || word_is(&chars, 0, n, "q") {
        Some(Command::Quit)
    } else if word_is(&chars, 0, n, "help") || word_is(&chars, 0, n, "h") {
        Some(Command::Help)
    } else if word_is(&chars, 0, n, "play") || word_is(&chars, 0, n, "p") {
        Some(Command::Play)
    } else if word_is(&chars, 0, n, "reset") || word_is(&chars, 0, n, "r") {
        Some(Command::Reset)
    } else if word_is(&chars, 0, n, "step") || word_is(&chars, 0, n, "s") {
        Some(Command::Step)
    } else if word_is(&chars, 0, n, "undo") || word_is(&chars, 0, n, "u") {
        Some(Command::Undo)
    } else {
        None
    }
}

/// Reads a command from a trimmed line of input.
pub fn parse_command(input: &str) -> (r: Command)
    ensures
        (input@ == "exit"@ || input@ == "quit"@ || input@ == "q"@) ==> r == Command::Quit,
        (input@ == "help"@ || input@ == "h"@) ==> r == Command::Help,
        (input@ == "play"@ || input@ == "p"@) ==> r == Command::Play,
        (input@ == "reset"@ || input@ == "r"@) ==> r == Command::Reset,
        (input@ == "step"@ || input@ == "s"@) ==> r == Command::Step,
        (input@ == "undo"@ || input@ == "u"@) ==> r == Command::Undo,
        r matches Command::SetRegisters(m) ==> m.wf() && exists|w: Seq<(usize, usize)>|
            splits(input@, 0, input@.len() as int, w) && register_words(input@, w, m@),
        !is_keyword(input@) ==> (r is SetRegisters <==> is_registers_line(input@)),
        !is_keyword(input@) && !is_registers_line(input@) ==> {
            &&& first_word_is(input@, "inc"@) ==> r is Inc
            &&& first_word_is(input@, "decjz"@) ==> r is Decjz
            &&& first_word_is(input@, "dec"@) ==> r is Dec
            &&& (first_word_is(input@, "breakpoint"@) || first_word_is(input@, "break"@)
                || first_word_is(input@, "b"@)) ==> r is Breakpoint
            &&& r is Unknown ==> !first_word_is(input@, "inc"@) && !first_word_is(input@, "decjz"@)
                && !first_word_is(input@, "dec"@) && !first_word_is(input@, "breakpoint"@)
                && !first_word_is(input@, "break"@) && !first_word_is(input@, "b"@)
        },
        r matches Command::Inc(Ok(ins)) ==> ins is INC,
        r matches Command::Decjz(Ok(ins)) ==> ins is DECJZ,
        r matches Command::Dec(Ok(ins)) ==> ins matches Instruction::DECJZ(_, Identifier::Halt),
{
    match keyword_command(input) {
        Some(c) => c,
        None => other_command(input),
    }
}

/// Reads a command that is not one keyword.
fn other_command(input: &str) -> (r: Command)
    ensures
        r matches Command::SetRegisters(m) ==> m.wf() && exists|w: Seq<(usize, usize)>|
            splits(input@, 0, input@.len() as int, w) && register_words(input@, w, m@),
        r is SetRegisters <==> is_registers_line(input@),
        !is_registers_line(input@) ==> {
            &&& first_word_is(input@, "inc"@) ==> r is Inc
            &&& first_word_is(input@, "decjz"@) ==> r is Decjz
            &&& first_word_is(input@, "dec"@) ==> r is Dec
            &&& (first_word_is(input@, "breakpoint"@) || first_word_is(input@, "break"@)
                || first_word_is(input@, "b"@)) ==> r is Breakpoint
            &&& r is Unknown ==> !first_word_is(input@, "inc"@) && !first_word_is(input@, "decjz"@)
                && !first_word_is(input@, "dec"@) && !first_word_is(input@, "breakpoint"@)
                && !first_word_is(input@, "break"@) && !first_word_is(input@, "b"@)
        },
        r matches Command::Inc(Ok(ins)) ==> ins is INC,
        r matches Command::Decjz(Ok(ins)) ==> ins is DECJZ,
        r matches Command::Dec(Ok(ins)) ==> ins matches Instruction::DECJZ(_, Identifier::Halt),
{
    proof {
        reveal_strlit("inc");
        reveal_strlit("decjz");
        reveal_strlit("dec");
        reveal_strlit("breakpoint");
        reveal_strlit("break");
        reveal_strlit("b");
        assert("inc"@.len() == 3 && "inc"@[0] == 'i');
        assert("decjz"@.len() == 5 && "decjz"@[0] == 'd');
        assert("dec"@.len() == 3 && "dec"@[0] == 'd');
        assert("breakpoint"@.len() == 10 && "breakpoint"@[0] == 'b');
        assert("break"@.len() == 5 && "break"@[0] == 'b');
        assert("b"@.len() == 1 && "b"@[0] == 'b');
    }
    let chars = chars_of(input);
    let n = chars.len();
    if let Ok(m) = parse_register_line(input) {
        return Command::SetRegisters(m);
    }
    let words = split_words(&chars, 0, n);
    proof {
        assert(chars@.subrange(0, n as int) =~= input@);
        assert forall|w: Seq<(usize, usize)>| #[trigger] splits(input@, 0, input@.len() as int, w)
            implies w == words@ by {
            lemma_splits_unique(chars@, 0, n as int, words@, w);
        }
    }
    if words.len() == 0 {
        return Command::Unknown;
    }
    let (s, e) = words[0];
    if word_is(&chars, s, e, "inc") {
        Command::Inc(parse_inc(input))
    } else if word_is(&chars, s, e, "decjz") {
        Command::Decjz(parse_decjz(input))
    } else if word_is(&chars, s, e, "dec") {
        Command::Dec(parse_dec(input))
    } else if word_is(&chars, s, e, "breakpoint") || word_is(&chars, s, e, "break") || word_is(
        &chars,
        s,
        e,
        "b",
    ) {
        if words.len() < 2 {
            return Command::Breakpoint(Err(TargetError::Missing));
        }
        let (ts, te) = words[1];
        let (_, le) = words[words.len() - 1];
        let last = if le < te {
            te
        } else {
            le
        };
        Command::Breakpoint(parse_target(input, &chars, ts, te, last))
    } else {
        Command::Unknown
    }
}

/// The target of a breakpoint command, from the word at `chars[s..e]` to `chars[s..last]`:
/// a line number, or a label (which may hold blanks); never the halt.
fn parse_target(input: &str, chars: &Vec<char>, s: usize, e: usize, last: usize) -> (r: Result<
    Identifier,
    TargetError,
>)
    requires
        chars@ == input@,
        s < e <= last <= chars@.len(),
    ensures
        r matches Ok(Identifier::Label(name)) ==> name@ == input@.subrange(s as int, last as int)
            && !is_halt_word(input@.subrange(s as int, e as int)),
        r matches Ok(Identifier::Line(n)) ==> number_word(
            input@.subrange(s as int, e as int),
        ) == Some(n as u128),
        r is Ok ==> !(r matches Ok(Identifier::Halt)),
{
    if all_digits(chars, s, e) {
        match parse_number(chars, s, e) {
            Some(v) => {
                if v <= usize::MAX as u128 {
                    Ok(Identifier::Line(v as usize))
                } else {
                    Err(TargetError::LineTooLarge)
                }
            },
            None => Err(TargetError::LineTooLarge),
        }
    } else if is_halt(chars, s, e) {
        Err(TargetError::Halt)
    } else {
        Ok(Identifier::Label(input.substring_char(s, last).to_owned()))
    }
}

} // verus!
