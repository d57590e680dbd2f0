//! The source format: blank lines and `#` comments aside, a `registers` line with the
//! initial values of the natural registers, then one instruction per line, optionally
//! after a `label:`.
use vstd::prelude::*;
use vstd::string::StrSliceExecFns;

use crate::instruction::Instruction;
use crate::machine::{build_error, buildable, built_model, Identifier, Line, Machine, MachineEditError};
use crate::memory::{Memory, MemoryModel, Register, RegisterNumber};
use crate::words::{
    chars_of, is_halt, is_halt_word, is_label, is_label_word, is_word_span, lemma_splits_unique,
    number_word, parse_number, parse_register, register_word, spans_ok, split_words, splits,
    word, word_is,
};

verus! {

/// Why a source text was refused.
#[derive(Debug, PartialEq)]
pub enum ParseSourceError {
    /// The text does not follow the grammar, on the given line (counted from one).
    SyntaxError { line: usize },
    /// An instruction has more operands than it takes.
    TooManyArgument { received: usize, instruction: String, expected: usize },
    /// An instruction has fewer operands than it takes.
    TooFewArguments { received: usize, instruction: String, expected: usize },
    /// The first line that is not blank is no `registers` line.
    NoInitialRegisters,
    /// The lines do not make a machine.
    InvalidProgram(MachineEditError),
}

/// Why a word names no register.
#[derive(Debug, Clone, Copy, PartialEq, Eq)]
pub enum RegisterParseError {
    /// The number after `r` (or `r-`) is no `usize`.
    NotInt,
    /// The word does not start with `r`.
    MissingR,
}

/// Reads a register name: `rN` for the natural namespace, `r-N` for the negative one.
pub fn parse_register_number(s: &str) -> (r: Result<RegisterNumber, RegisterParseError>)
    ensures
        (s@.len() == 0 || s@[0] != 'r') <==> r == Err::<RegisterNumber, RegisterParseError>(
            RegisterParseError::MissingR,
        ),
        r matches Ok(n) ==> register_word(s@) == Some(n),
        register_word(s@) matches Some(n) ==> r == Ok::<RegisterNumber, RegisterParseError>(n),
        (s@.len() > 0 && s@[0] == 'r' && register_word(s@) is None) ==> r == Err::<
            RegisterNumber,
            RegisterParseError,
        >(RegisterParseError::NotInt),
{
    let chars = chars_of(s);
    if chars.len() == 0 || chars[0] != 'r' {
        return Err(RegisterParseError::MissingR);
    }
    proof {
        assert(chars@.subrange(0, chars@.len() as int) =~= s@);
    }
    match parse_register(&chars, 0, chars.len()) {
        Some(n) => Ok(n),
        None => Err(RegisterParseError::NotInt),
    }
}

impl std::str::FromStr for RegisterNumber {
    type Err = RegisterParseError;

    fn from_str(s: &str) -> Result<Self, Self::Err> {
        parse_register_number(s)
    }
}

/// The target a word names: the halt, or a label.
pub open spec fn target_word(w: Seq<char>, t: Identifier) -> bool {
    match t {
        Identifier::Halt => is_halt_word(w),
        Identifier::Label(s) => s@ == w && is_label_word(w) && !is_halt_word(w),
        Identifier::Line(_) => false,
    }
}

/// The instruction that the words from `from` on spell.
pub open spec fn instruction_words(
    chars: Seq<char>,
    words: Seq<(usize, usize)>,
    from: int,
    ins: Instruction,
) -> bool {
    match ins {
        Instruction::INC(n) => words.len() == from + 2 && word(chars, words[from]) == seq![
            'i',
            'n',
            'c',
        ] && register_word(word(chars, words[from + 1])) == Some(n),
        Instruction::DECJZ(n, t) => words.len() == from + 3 && word(chars, words[from]) == seq![
            'd',
            'e',
            'c',
            'j',
            'z',
        ] && register_word(word(chars, words[from + 1])) == Some(n) && target_word(
            word(chars, words[from + 2]),
            t,
        ),
    }
}

/// The words from `from` on spell an instruction.
pub open spec fn spells_instruction(chars: Seq<char>, words: Seq<(usize, usize)>, from: int) -> bool {
    exists|ins: Instruction| instruction_words(chars, words, from, ins)
}

/// The words spell a line of a program.
pub open spec fn spells_line(chars: Seq<char>, words: Seq<(usize, usize)>, line_num: usize) -> bool {
    exists|l: Line| line_words(chars, words, line_num, l)
}

/// The words spell the short decrement `dec rN`.
pub open spec fn dec_words(chars: Seq<char>, words: Seq<(usize, usize)>, n: RegisterNumber) -> bool {
    &&& words.len() == 2
    &&& word(chars, words[0]) == seq!['d', 'e', 'c']
    &&& register_word(word(chars, words[1])) == Some(n)
}

/// The words spell initial registers: `registers` and one number or more.
pub open spec fn spells_registers(chars: Seq<char>, words: Seq<(usize, usize)>) -> bool {
    &&& words.len() >= 2
    &&& word(chars, words[0]) == seq!['r', 'e', 'g', 'i', 's', 't', 'e', 'r', 's']
    &&& forall|k: int| 1 <= k < words.len() ==> (number_word(word(chars, #[trigger] words[k])) is Some)
}

/// The line that the words spell, as line `line_num` of a program: an optional `label:`,
/// then an instruction.
pub open spec fn line_words(chars: Seq<char>, words: Seq<(usize, usize)>, line_num: usize, l: Line) -> bool {
    l.line_number == line_num && match l.id {
        None => instruction_words(chars, words, 0, l.instruction),
        Some(Identifier::Label(name)) => {
            let w = word(chars, words[0]);
            &&& words.len() > 0
            &&& w.len() > 1
            &&& w.last() == ':'
            &&& name@ == w.drop_last()
            &&& is_label_word(name@)
            &&& instruction_words(chars, words, 1, l.instruction)
        },
        _ => false,
    }
}

/// The initial registers that the words spell: `registers` and one value or more, each
/// held as one digit.
pub open spec fn register_words(chars: Seq<char>, words: Seq<(usize, usize)>, m: MemoryModel) -> bool {
    &&& m.negative.len() == 0
    &&& m.natural.len() + 1 == words.len()
    &&& m.natural.len() > 0
    &&& word(chars, words[0]) == seq!['r', 'e', 'g', 'i', 's', 't', 'e', 'r', 's']
    &&& forall|k: int|
        0 <= k < m.natural.len() ==> number_word(word(chars, words[k + 1])) == Some(
            (#[trigger] m.natural[k])[0],
        ) && m.natural[k].len() == 1
}

/// An operand count error, or none.
fn check_count(
    received: usize,
    expected: usize,
    name: &str,
) -> (r: Result<(), ParseSourceError>)
    ensures
        !(r matches Err(ParseSourceError::InvalidProgram(_))),
        !(r matches Err(ParseSourceError::NoInitialRegisters)),
        r is Ok <==> received == expected,
{
    if received < expected {
        Err(
            ParseSourceError::TooFewArguments {
                received,
                instruction: name.to_owned(),
                expected,
            },
        )
    } else if received > expected {
        Err(
            ParseSourceError::TooManyArgument {
                received,
                instruction: name.to_owned(),
                expected,
            },
        )
    } else {
        Ok(())
    }
}

/// The instruction that the words from `from` on spell: `inc rN` or `decjz rN target`.
fn parse_instruction_words(
    input: &str,
    chars: &Vec<char>,
    words: &Vec<(usize, usize)>,
    from: usize,
    line: usize,
) -> (r: Result<Instruction, ParseSourceError>)
    requires
        chars@ == input@,
        from < words@.len(),
        spans_ok(chars@, words@),
    ensures
        !(r matches Err(ParseSourceError::InvalidProgram(_))),
        !(r matches Err(ParseSourceError::NoInitialRegisters)),
        r matches Ok(ins) ==> instruction_words(chars@, words@, from as int, ins),
        r is Ok <==> spells_instruction(chars@, words@, from as int),
{
    let received = words.len() - from - 1;
    let (s, e) = words[from];
    proof {
        reveal_strlit("inc");
        reveal_strlit("decjz");
        assert("inc"@ =~= seq!['i', 'n', 'c']);
        assert("decjz"@ =~= seq!['d', 'e', 'c', 'j', 'z']);
    }
    if word_is(chars, s, e, "inc") {
        if let Err(err) = check_count(received, 1, "inc") {
            return Err(err);
        }
        let (rs, re) = words[from + 1];
        match parse_register(chars, rs, re) {
            Some(n) => {
                let ins = Instruction::INC(n);
                proof {
                    assert(instruction_words(chars@, words@, from as int, ins));
                }
                Ok(ins)
            },
            None => Err(ParseSourceError::SyntaxError { line }),
        }
    } else if word_is(chars, s, e, "decjz") {
        if let Err(err) = check_count(received, 2, "decjz") {
            return Err(err);
        }
        let (rs, re) = words[from + 1];
        let n = match parse_register(chars, rs, re) {
            Some(n) => n,
            None => {
                return Err(ParseSourceError::SyntaxError { line });
            },
        };
        let (ts, te) = words[from + 2];
        if is_halt(chars, ts, te) {
            let ins = Instruction::DECJZ(n, Identifier::Halt);
            proof {
                assert(instruction_words(chars@, words@, from as int, ins));
            }
            Ok(ins)
        } else if is_label(chars, ts, te) {
            let name = input.substring_char(ts, te).to_owned();
            let ins = Instruction::DECJZ(n, Identifier::Label(name));
            proof {
                assert(instruction_words(chars@, words@, from as int, ins));
            }
            Ok(ins)
        } else {
            Err(ParseSourceError::SyntaxError { line })
        }
    } else {
        Err(ParseSourceError::SyntaxError { line })
    }
}

/// The line that the words spell, as line `line_num` of a program: an optional `label:`,
/// then an instruction. `line` is the line of the text, for errors.
fn parse_line_words(
    input: &str,
    chars: &Vec<char>,
    words: &Vec<(usize, usize)>,
    line_num: usize,
    line: usize,
) -> (r: Result<Line, ParseSourceError>)
    requires
        chars@ == input@,
        words@.len() > 0,
        spans_ok(chars@, words@),
    ensures
        !(r matches Err(ParseSourceError::InvalidProgram(_))),
        !(r matches Err(ParseSourceError::NoInitialRegisters)),
        r matches Ok(l) ==> line_words(chars@, words@, line_num, l),
        r is Ok <==> spells_line(chars@, words@, line_num),
{
    let (s, e) = words[0];
    let ghost w0 = word(chars@, words@[0]);
    proof {
        assert(w0.len() > 0 && w0.last() == chars@[e - 1]);
        assert(w0.drop_last() =~= chars@.subrange(s as int, e - 1));
        assert(seq!['i', 'n', 'c'].last() != ':');
        assert(seq!['d', 'e', 'c', 'j', 'z'].last() != ':');
    }
    if chars[e - 1] == ':' {
        if !is_label(chars, s, e - 1) || words.len() < 2 {
            return Err(ParseSourceError::SyntaxError { line });
        }
        let name = input.substring_char(s, e - 1).to_owned();
        let instruction = match parse_instruction_words(input, chars, words, 1, line) {
            Ok(i) => i,
            Err(err) => {
                proof {
                    assert forall|l: Line| !line_words(chars@, words@, line_num, l) by {
                        if line_words(chars@, words@, line_num, l) {
                            assert(spells_instruction(chars@, words@, 1));
                        }
                    }
                }
                return Err(err);
            },
        };
        let l = Line::new(line_num, Some(Identifier::Label(name)), instruction);
        proof {
            assert(line_words(chars@, words@, line_num, l));
        }
        Ok(l)
    } else {
        let instruction = match parse_instruction_words(input, chars, words, 0, line) {
            Ok(i) => i,
            Err(err) => {
                proof {
                    assert forall|l: Line| !line_words(chars@, words@, line_num, l) by {
                        if line_words(chars@, words@, line_num, l) {
                            assert(spells_instruction(chars@, words@, 0));
                        }
                    }
                }
                return Err(err);
            },
        };
        let l = Line::new(line_num, None, instruction);
        proof {
            assert(line_words(chars@, words@, line_num, l));
        }
        Ok(l)
    }
}

/// The initial registers that the words spell: `registers` and one value or more.
fn parse_register_words(chars: &Vec<char>, words: &Vec<(usize, usize)>, line: usize) -> (r: Result<
    Memory,
    ParseSourceError,
>)
    requires
        spans_ok(chars@, words@),
        words@.len() > 0,
    ensures
        !(r matches Err(ParseSourceError::InvalidProgram(_))),
        !(r matches Err(ParseSourceError::NoInitialRegisters)),
        r matches Ok(m) ==> m.wf() && register_words(chars@, words@, m@),
        r is Ok <==> spells_registers(chars@, words@),
{
    let (s, e) = words[0];
    proof {
        reveal_strlit("registers");
        assert("registers"@ =~= seq!['r', 'e', 'g', 'i', 's', 't', 'e', 'r', 's']);
    }
    if !word_is(chars, s, e, "registers") || words.len() < 2 {
        return Err(ParseSourceError::SyntaxError { line });
    }
    let mut regs: Vec<Register> = Vec::new();
    let mut i: usize = 1;
    while i < words.len()
        invariant
            spans_ok(chars@, words@),
            1 <= i <= words@.len(),
            regs@.len() + 1 == i,
            forall|k: int| 0 <= k < regs@.len() ==> (#[trigger] regs@[k]).wf(),
            forall|k: int|
                0 <= k < regs@.len() ==> (#[trigger] regs@[k])@.len() == 1 && number_word(
                    word(chars@, words@[k + 1]),
                ) == Some(regs@[k]@[0]),
        decreases words@.len() - i,
    {
        let (ws, we) = words[i];
        match parse_number(chars, ws, we) {
            Some(v) => {
                let r = Register::new_from_u128(v);
                regs.push(r);
            },
            None => {
                return Err(ParseSourceError::SyntaxError { line });
            },
        }
        i = i + 1;
    }
    let m = Memory::new_from_slice(&regs);
    proof {
        assert forall|k: int| 0 <= k < m@.natural.len() implies number_word(
            word(chars@, words@[k + 1]),
        ) == Some((#[trigger] m@.natural[k])[0]) && m@.natural[k].len() == 1 by {
            assert(m@.natural[k] == regs@[k]@);
        }
        assert forall|k: int| 1 <= k < words@.len() implies (number_word(
            word(chars@, #[trigger] words@[k]),
        ) is Some) by {
            assert(regs@[k - 1]@.len() == 1);
        }
    }
    Ok(m)
}

/// The end of the text line that starts at `start`: the next newline, or the end.
fn line_end(chars: &Vec<char>, start: usize) -> (r: usize)
    requires
        start <= chars@.len(),
    ensures
        start <= r <= chars@.len(),
        r < chars@.len() ==> chars@[r as int] == '\n',
        forall|k: int| start <= k < r ==> chars@[k] != '\n',
{
    let mut i = start;
    while i < chars.len() && chars[i] != '\n'
        invariant
            start <= i <= chars@.len(),
            forall|k: int| start <= k < i ==> chars@[k] != '\n',
        decreases chars@.len() - i,
    {
        i = i + 1;
    }
    i
}

/// `chars[a..b]` is a line of the text: between two newlines, or a newline and an end.
pub open spec fn is_text_line(chars: Seq<char>, a: int, b: int) -> bool {
    &&& 0 <= a <= b <= chars.len()
    &&& (a == 0 || chars[a - 1] == '\n')
    &&& (b == chars.len() || chars[b] == '\n')
    &&& forall|k: int| a <= k < b ==> chars[k] != '\n'
}

/// The text spells the registers `mem` on the text line `reg`, with words `reg_words`,
/// and the program lines `lines`, line `i` on the text line `spans[i]` with words
/// `wss[i]`, each text line after the one before.
#[verifier::opaque]
pub open spec fn text_spells(
    chars: Seq<char>,
    lines: Seq<Line>,
    mem: MemoryModel,
    reg: (int, int),
    reg_words: Seq<(usize, usize)>,
    spans: Seq<(int, int)>,
    wss: Seq<Seq<(usize, usize)>>,
) -> bool {
    &&& is_text_line(chars, reg.0, reg.1)
    &&& splits(chars, reg.0, reg.1, reg_words)
    &&& register_words(chars, reg_words, mem)
    &&& spans.len() == lines.len()
    &&& wss.len() == lines.len()
    &&& forall|i: int|
        0 <= i < lines.len() ==> {
            &&& is_text_line(chars, (#[trigger] spans[i]).0, spans[i].1)
            &&& reg.1 < spans[i].0
            &&& (i > 0 ==> spans[i - 1].1 < spans[i].0)
            &&& splits(chars, spans[i].0, spans[i].1, wss[i])
            &&& line_words(chars, wss[i], i as usize, lines[i])
        }
}

/// The text spells the registers `mem` and the program lines `lines`, in order.
pub open spec fn parsed_from(chars: Seq<char>, lines: Seq<Line>, mem: MemoryModel) -> bool {
    exists|
        reg: (int, int),
        reg_words: Seq<(usize, usize)>,
        spans: Seq<(int, int)>,
        wss: Seq<Seq<(usize, usize)>>,
    | text_spells(chars, lines, mem, reg, reg_words, spans, wss) && covers_text(
        chars,
        reg,
        spans,
        chars.len() + 1 as int,
    )
}

/// The text lines that start before `upto` and hold a word are the registers line `reg`
/// and the program lines `spans`; none holds a word before `reg`.
#[verifier::opaque]
pub open spec fn covers_text(chars: Seq<char>, reg: (int, int), spans: Seq<(int, int)>, upto: int) -> bool {
    forall|a: int, b: int, w: Seq<(usize, usize)>|
        #![trigger is_text_line(chars, a, b), splits(chars, a, b, w)]
        is_text_line(chars, a, b) && a < upto && splits(chars, a, b, w) && w.len() > 0 ==> (a
            == reg.0 || (reg.0 < a && exists|i: int| 0 <= i < spans.len() && (#[trigger] spans[i]).0
            == a))
}

/// No text line that starts before `upto` holds a word.
#[verifier::opaque]
pub open spec fn blank_text(chars: Seq<char>, upto: int) -> bool {
    forall|a: int, b: int, w: Seq<(usize, usize)>|
        #![trigger is_text_line(chars, a, b), splits(chars, a, b, w)]
        is_text_line(chars, a, b) && a < upto && splits(chars, a, b, w) ==> w.len() == 0
}

/// A text line that starts within another is that line.
proof fn lemma_text_line_at(chars: Seq<char>, pos: int, end: int, a: int, b: int)
    requires
        is_text_line(chars, pos, end),
        is_text_line(chars, a, b),
        pos <= a <= end,
    ensures
        a == pos,
        b == end,
{
    if a > pos {
        assert(chars[a - 1] == '\n');
    }
    if b < end {
        assert(chars[b] == '\n');
    } else if end < b {
        assert(chars[end] == '\n');
    }
}

/// Text lines before the next line start come from the lines seen and the one at `pos`.
proof fn lemma_cover_step(
    chars: Seq<char>,
    reg: (int, int),
    spans: Seq<(int, int)>,
    pos: int,
    end: int,
    words: Seq<(usize, usize)>,
)
    requires
        covers_text(chars, reg, spans, pos),
        is_text_line(chars, pos, end),
        splits(chars, pos, end, words),
        words.len() > 0 ==> pos == reg.0 || (reg.0 < pos && exists|i: int|
            0 <= i < spans.len() && (#[trigger] spans[i]).0 == pos),
        reg.0 <= pos,
    ensures
        covers_text(chars, reg, spans, end + 1),
{
    reveal(covers_text);
    assert forall|a: int, b: int, w: Seq<(usize, usize)>|
        #![trigger is_text_line(chars, a, b), splits(chars, a, b, w)]
        is_text_line(chars, a, b) && a < end + 1 && splits(chars, a, b, w) && w.len() > 0 implies (a
            == reg.0 || (reg.0 < a && exists|i: int| 0 <= i < spans.len() && (#[trigger] spans[i]).0
            == a)) by {
        if a >= pos {
            lemma_text_line_at(chars, pos, end, a, b);
            lemma_splits_unique(chars, pos, end, words, w);
        }
    }
}

/// Covering stays when program lines are added.
proof fn lemma_cover_more(chars: Seq<char>, reg: (int, int), spans: Seq<(int, int)>, x: (int, int), upto: int)
    requires
        covers_text(chars, reg, spans, upto),
    ensures
        covers_text(chars, reg, spans.push(x), upto),
{
    reveal(covers_text);
    let ns = spans.push(x);
    assert forall|a: int, b: int, w: Seq<(usize, usize)>|
        #![trigger is_text_line(chars, a, b), splits(chars, a, b, w)]
        is_text_line(chars, a, b) && a < upto && splits(chars, a, b, w) && w.len() > 0 implies (a
            == reg.0 || (reg.0 < a && exists|i: int| 0 <= i < ns.len() && (#[trigger] ns[i]).0 == a)) by {
        if a != reg.0 {
            let i = choose|i: int| 0 <= i < spans.len() && (#[trigger] spans[i]).0 == a;
            assert(ns[i] == spans[i]);
        }
    }
}

/// Blank lines up to the line at `pos`, which holds a word, cover with it as the registers
/// line.
proof fn lemma_cover_first(chars: Seq<char>, pos: int, end: int)
    requires
        blank_text(chars, pos),
    ensures
        covers_text(chars, (pos, end), seq![], pos),
{
    reveal(covers_text);
    reveal(blank_text);
}

/// Blank lines stay blank up to the next line start.
proof fn lemma_blank_step(chars: Seq<char>, pos: int, end: int, words: Seq<(usize, usize)>)
    requires
        blank_text(chars, pos),
        is_text_line(chars, pos, end),
        splits(chars, pos, end, words),
        words.len() == 0,
    ensures
        blank_text(chars, end + 1),
{
    reveal(blank_text);
    assert forall|a: int, b: int, w: Seq<(usize, usize)>|
        #![trigger is_text_line(chars, a, b), splits(chars, a, b, w)]
        is_text_line(chars, a, b) && a < end + 1 && splits(chars, a, b, w) implies w.len() == 0 by {
        if a >= pos {
            lemma_text_line_at(chars, pos, end, a, b);
            lemma_splits_unique(chars, pos, end, words, w);
        }
    }
}

/// The registers line alone, with no program line yet.
proof fn lemma_spells_start(
    chars: Seq<char>,
    mem: MemoryModel,
    reg: (int, int),
    reg_words: Seq<(usize, usize)>,
)
    requires
        is_text_line(chars, reg.0, reg.1),
        splits(chars, reg.0, reg.1, reg_words),
        register_words(chars, reg_words, mem),
    ensures
        text_spells(chars, seq![], mem, reg, reg_words, seq![], seq![]),
{
    reveal(text_spells);
}

/// A program line spelled by a later text line extends what the text spells.
proof fn lemma_spells_push(
    chars: Seq<char>,
    lines: Seq<Line>,
    mem: MemoryModel,
    reg: (int, int),
    reg_words: Seq<(usize, usize)>,
    spans: Seq<(int, int)>,
    wss: Seq<Seq<(usize, usize)>>,
    l: Line,
    a: int,
    b: int,
    words: Seq<(usize, usize)>,
)
    requires
        text_spells(chars, lines, mem, reg, reg_words, spans, wss),
        forall|i: int| 0 <= i < spans.len() ==> (#[trigger] spans[i]).1 < a,
        reg.1 < a,
        is_text_line(chars, a, b),
        splits(chars, a, b, words),
        line_words(chars, words, lines.len() as usize, l),
    ensures
        text_spells(chars, lines.push(l), mem, reg, reg_words, spans.push((a, b)), wss.push(words)),
{
    reveal(text_spells);
    let nl = lines.push(l);
    let ns = spans.push((a, b));
    let nw = wss.push(words);
    assert forall|i: int| 0 <= i < nl.len() implies {
        &&& is_text_line(chars, (#[trigger] ns[i]).0, ns[i].1)
        &&& reg.1 < ns[i].0
        &&& (i > 0 ==> ns[i - 1].1 < ns[i].0)
        &&& splits(chars, ns[i].0, ns[i].1, nw[i])
        &&& line_words(chars, nw[i], i as usize, nl[i])
    } by {
        if i < lines.len() {
            assert(ns[i] == spans[i]);
            assert(nw[i] == wss[i]);
            assert(nl[i] == lines[i]);
            if i > 0 {
                assert(ns[i - 1] == spans[i - 1]);
            }
        } else if i > 0 {
            assert(ns[i - 1] == spans[i - 1]);
        }
    }
}

/// The first text line that holds a word starts with `registers`.
pub open spec fn registers_first(chars: Seq<char>) -> bool {
    exists|a: int, b: int, w: Seq<(usize, usize)>|
        #![trigger is_text_line(chars, a, b), splits(chars, a, b, w)]
        is_text_line(chars, a, b) && blank_text(chars, a) && splits(chars, a, b, w) && w.len() > 0
            && word(chars, w[0]) == seq!['r', 'e', 'g', 'i', 's', 't', 'e', 'r', 's']
}

/// Before the line at `pos`, which holds words not led by `registers`, no line holds a
/// word: so no line that holds a word and is led by `registers` comes first.
proof fn lemma_not_registers_first(chars: Seq<char>, pos: int, end: int, words: Seq<(usize, usize)>)
    requires
        blank_text(chars, pos),
        is_text_line(chars, pos, end),
        splits(chars, pos, end, words),
        words.len() > 0,
        word(chars, words[0]) != seq!['r', 'e', 'g', 'i', 's', 't', 'e', 'r', 's'],
    ensures
        !registers_first(chars),
{
    reveal(blank_text);
    assert forall|a: int, b: int, w: Seq<(usize, usize)>|
        #![trigger is_text_line(chars, a, b), splits(chars, a, b, w)]
        is_text_line(chars, a, b) && blank_text(chars, a) && splits(chars, a, b, w) && w.len() > 0
            implies word(chars, w[0]) != seq!['r', 'e', 'g', 'i', 's', 't', 'e', 'r', 's'] by {
        if a < pos {
        } else if a > pos {
            assert(pos < a);
        } else {
            lemma_text_line_at(chars, pos, end, a, b);
            lemma_splits_unique(chars, pos, end, words, w);
        }
    }
}

/// With no line that holds a word, none is led by `registers`.
proof fn lemma_all_blank(chars: Seq<char>)
    requires
        blank_text(chars, chars.len() + 1 as int),
    ensures
        !registers_first(chars),
{
    reveal(blank_text);
}

/// Some text line holds words that spell no program line, nor, when it is the first such
/// line, initial registers.
pub open spec fn has_bad_line(chars: Seq<char>) -> bool {
    exists|a: int, b: int, w: Seq<(usize, usize)>|
        #![trigger is_text_line(chars, a, b), splits(chars, a, b, w)]
        is_text_line(chars, a, b) && splits(chars, a, b, w) && w.len() > 0 && !spells_line(
            chars,
            w,
            0,
        ) && (blank_text(chars, a) ==> !spells_registers(chars, w))
}

/// Whether words spell a program line does not depend on the line's number.
proof fn lemma_spells_line_any(chars: Seq<char>, w: Seq<(usize, usize)>, n: usize)
    ensures
        spells_line(chars, w, n) == spells_line(chars, w, 0),
{
    if spells_line(chars, w, n) {
        let l = choose|l: Line| line_words(chars, w, n, l);
        assert(line_words(chars, w, 0, Line { line_number: 0, ..l }));
    }
    if spells_line(chars, w, 0) {
        let l = choose|l: Line| line_words(chars, w, 0, l);
        assert(line_words(chars, w, n, Line { line_number: n, ..l }));
    }
}

/// A line led by `registers` spells no program line.
proof fn lemma_registers_no_line(chars: Seq<char>, w: Seq<(usize, usize)>)
    requires
        w.len() > 0,
        word(chars, w[0]) == seq!['r', 'e', 'g', 'i', 's', 't', 'e', 'r', 's'],
    ensures
        !spells_line(chars, w, 0),
{
    assert(seq!['r', 'e', 'g', 'i', 's', 't', 'e', 'r', 's'].last() != ':');
}

/// Parses a source text into a machine: blank lines and the text after a `#` are left
/// out; the first other line gives the initial registers (`registers 1 2 3`), and each
/// line after it one instruction (`loop: decjz r1 HALT`, `inc r-2`).
pub fn parse_str(input: &str) -> (r: Result<Machine, ParseSourceError>)
    ensures
        r matches Ok(m) ==> m.wf() && exists|lines: Seq<Line>, mem: MemoryModel|
            parsed_from(input@, lines, mem) && buildable(lines) && m@ == built_model(lines, mem),
        r matches Err(ParseSourceError::InvalidProgram(e)) ==> exists|
            lines: Seq<Line>,
            mem: MemoryModel,
        | parsed_from(input@, lines, mem) && build_error(lines, e),
        r matches Err(ParseSourceError::NoInitialRegisters) ==> !registers_first(input@),
        (r matches Err(ParseSourceError::SyntaxError { .. }) || r matches Err(
            ParseSourceError::TooManyArgument { .. },
        ) || r matches Err(ParseSourceError::TooFewArguments { .. })) ==> has_bad_line(input@),
{
    let chars = chars_of(input);
    let mut pos: usize = 0;
    let mut line: usize = 1;
    let mut memory: Option<Memory> = None;
    let mut lines: Vec<Line> = Vec::new();
    let ghost mut reg: (int, int) = (0, 0);
    let ghost mut reg_words: Seq<(usize, usize)> = seq![];
    let ghost mut spans: Seq<(int, int)> = seq![];
    let ghost mut wss: Seq<Seq<(usize, usize)>> = seq![];
    let ghost mut seen: int = 0;
    proof {
        reveal(blank_text);
    }
    loop
        invariant_except_break
            memory is Some ==> reg.1 < pos && forall|i: int|
                0 <= i < spans.len() ==> (#[trigger] spans[i]).1 < pos,
            seen == pos,
        invariant
            chars@ == input@,
            pos <= chars@.len(),
            pos == 0 || chars@[pos - 1] == '\n',
            memory is None ==> lines@.len() == 0 && blank_text(chars@, seen),
            memory matches Some(m) ==> m.wf() && text_spells(
                chars@,
                lines@,
                m@,
                reg,
                reg_words,
                spans,
                wss,
            ) && covers_text(chars@, reg, spans, seen) && reg.0 <= pos && reg.0 < seen && is_text_line(
                chars@,
                reg.0,
                reg.1,
            ) && splits(chars@, reg.0, reg.1, reg_words) && reg_words.len() > 0,
            2 * lines@.len() <= seen,
            seen <= chars@.len() + 1,
        ensures
            seen == chars@.len() + 1,
        decreases chars@.len() - pos,
    {
        let end = line_end(&chars, pos);
        let words = split_words(&chars, pos, end);
        if words.len() > 0 {
            match memory {
                None => {
                    let (s, e) = words[0];
                    proof {
                        reveal_strlit("registers");
                    }
                    if !word_is(&chars, s, e, "registers") {
                        proof {
                            assert("registers"@ =~= seq!['r', 'e', 'g', 'i', 's', 't', 'e', 'r', 's']);
                            lemma_not_registers_first(chars@, pos as int, end as int, words@);
                        }
                        return Err(ParseSourceError::NoInitialRegisters);
                    }
                    let m = match parse_register_words(&chars, &words, line) {
                        Ok(m) => m,
                        Err(err) => {
                            proof {
                                assert("registers"@ =~= seq!['r', 'e', 'g', 'i', 's', 't', 'e', 'r', 's']);
                                lemma_registers_no_line(chars@, words@);
                                assert(is_text_line(chars@, pos as int, end as int));
                                assert(splits(chars@, pos as int, end as int, words@));
                            }
                            return Err(err);
                        },
                    };
                    proof {
                        reg = (pos as int, end as int);
                        reg_words = words@;
                        spans = seq![];
                        wss = seq![];
                        lemma_spells_start(chars@, m@, reg, reg_words);
                        lemma_cover_first(chars@, pos as int, end as int);
                        assert(lines@ =~= Seq::<Line>::empty());
                    }
                    memory = Some(m);
                },
                Some(_) => {
                    let l = match parse_line_words(input, &chars, &words, lines.len(), line) {
                        Ok(l) => l,
                        Err(e) => {
                            proof {
                                lemma_spells_line_any(chars@, words@, lines@.len() as usize);
                                reveal(blank_text);
                                assert(is_text_line(chars@, reg.0, reg.1));
                                assert(splits(chars@, reg.0, reg.1, reg_words));
                                assert(!blank_text(chars@, pos as int));
                                assert(is_text_line(chars@, pos as int, end as int));
                                assert(splits(chars@, pos as int, end as int, words@));
                            }
                            return Err(e);
                        },
                    };
                    let ghost old_lines = lines@;
                    lines.push(l);
                    proof {
                        lemma_spells_push(
                            chars@,
                            old_lines,
                            memory->0@,
                            reg,
                            reg_words,
                            spans,
                            wss,
                            l,
                            pos as int,
                            end as int,
                            words@,
                        );
                        lemma_cover_more(chars@, reg, spans, (pos as int, end as int), pos as int);
                        assert(lines@ == old_lines.push(l));
                        spans = spans.push((pos as int, end as int));
                        wss = wss.push(words@);
                        assert(spans[spans.len() - 1].0 == pos);
                        assert(words@[0].0 < words@[0].1);
                    }
                },
            }
        }
        proof {
            if memory is Some {
                lemma_cover_step(chars@, reg, spans, pos as int, end as int, words@);
            } else {
                lemma_blank_step(chars@, pos as int, end as int, words@);
            }
            seen = end + 1;
        }
        if end >= chars.len() {
            break;
        }
        pos = end + 1;
        if line < usize::MAX {
            line = line + 1;
        }
    }
    let memory = match memory {
        Some(m) => m,
        None => {
            proof {
                lemma_all_blank(chars@);
            }
            return Err(ParseSourceError::NoInitialRegisters);
        },
    };
    proof {
        assert(parsed_from(input@, lines@, memory@));
    }
    let total = chars.len();
    proof {
        assert(2 * lines@.len() <= total + 1);
    }
    match Machine::new_from_lines(&lines, memory) {
        Ok(m) => Ok(m),
        Err(e) => Err(ParseSourceError::InvalidProgram(e)),
    }
}

/// The words of a whole text taken as one line.
fn words_of(chars: &Vec<char>) -> (r: Vec<(usize, usize)>)
    ensures
        spans_ok(chars@, r@),
        splits(chars@, 0, chars@.len() as int, r@),
{
    split_words(chars, 0, chars.len())
}

/// Parses a line of initial registers: `registers` and one value or more.
pub fn parse_register_line(s: &str) -> (r: Result<Memory, ParseSourceError>)
    ensures
        r matches Ok(m) ==> m.wf() && exists|w: Seq<(usize, usize)>|
            splits(s@, 0, s@.len() as int, w) && register_words(s@, w, m@),
        r is Ok <==> exists|w: Seq<(usize, usize)>|
            splits(s@, 0, s@.len() as int, w) && spells_registers(s@, w),
{
    let chars = chars_of(s);
    let words = words_of(&chars);
    proof {
        assert forall|w: Seq<(usize, usize)>| #[trigger] splits(s@, 0, s@.len() as int, w) implies w
            == words@ by {
            lemma_splits_unique(chars@, 0, chars@.len() as int, words@, w);
        }
    }
    if words.len() == 0 {
        return Err(ParseSourceError::SyntaxError { line: 1 });
    }
    parse_register_words(&chars, &words, 1)
}

/// Parses an increment: `inc rN` or `inc r-N`.
pub fn parse_inc(s: &str) -> (r: Result<Instruction, ParseSourceError>)
    ensures
        r matches Ok(ins) ==> ins is INC && exists|w: Seq<(usize, usize)>|
            splits(s@, 0, s@.len() as int, w) && instruction_words(s@, w, 0, ins),
        r is Ok <==> exists|w: Seq<(usize, usize)>, ins: Instruction|
            splits(s@, 0, s@.len() as int, w) && ins is INC && instruction_words(s@, w, 0, ins),
{
    let chars = chars_of(s);
    let words = words_of(&chars);
    proof {
        assert forall|w: Seq<(usize, usize)>| #[trigger] splits(s@, 0, s@.len() as int, w) implies w
            == words@ by {
            lemma_splits_unique(chars@, 0, chars@.len() as int, words@, w);
        }
    }
    if words.len() == 0 {
        return Err(ParseSourceError::SyntaxError { line: 1 });
    }
    match parse_instruction_words(s, &chars, &words, 0, 1) {
        Ok(Instruction::INC(n)) => Ok(Instruction::INC(n)),
        Ok(other) => {
            proof {
                assert(instruction_words(chars@, words@, 0, other));
            }
            Err(ParseSourceError::SyntaxError { line: 1 })
        },
        Err(err) => Err(err),
    }
}

/// Parses a decrement with a jump: `decjz rN target`.
pub fn parse_decjz(s: &str) -> (r: Result<Instruction, ParseSourceError>)
    ensures
        r matches Ok(ins) ==> ins is DECJZ && exists|w: Seq<(usize, usize)>|
            splits(s@, 0, s@.len() as int, w) && instruction_words(s@, w, 0, ins),
        r is Ok <==> exists|w: Seq<(usize, usize)>, ins: Instruction|
            splits(s@, 0, s@.len() as int, w) && ins is DECJZ && instruction_words(s@, w, 0, ins),
{
    let chars = chars_of(s);
    let words = words_of(&chars);
    proof {
        assert forall|w: Seq<(usize, usize)>| #[trigger] splits(s@, 0, s@.len() as int, w) implies w
            == words@ by {
            lemma_splits_unique(chars@, 0, chars@.len() as int, words@, w);
        }
    }
    if words.len() == 0 {
        return Err(ParseSourceError::SyntaxError { line: 1 });
    }
    match parse_instruction_words(s, &chars, &words, 0, 1) {
        Ok(Instruction::DECJZ(n, t)) => Ok(Instruction::DECJZ(n, t)),
        Ok(other) => {
            proof {
                assert(instruction_words(chars@, words@, 0, other));
            }
            Err(ParseSourceError::SyntaxError { line: 1 })
        },
        Err(err) => Err(err),
    }
}

/// Parses the short decrement of the interactive modes, `dec rN`: a `DECJZ` whose target
/// is the halt.
pub fn parse_dec(s: &str) -> (r: Result<Instruction, ParseSourceError>)
    ensures
        r matches Ok(ins) ==> exists|w: Seq<(usize, usize)>, n: RegisterNumber|
            splits(s@, 0, s@.len() as int, w) && dec_words(s@, w, n) && ins == Instruction::DECJZ(
                n,
                Identifier::Halt,
            ),
        r is Ok <==> exists|w: Seq<(usize, usize)>, n: RegisterNumber|
            splits(s@, 0, s@.len() as int, w) && dec_words(s@, w, n),
{
    let chars = chars_of(s);
    let words = words_of(&chars);
    proof {
        assert forall|w: Seq<(usize, usize)>| #[trigger] splits(s@, 0, s@.len() as int, w) implies w
            == words@ by {
            lemma_splits_unique(chars@, 0, chars@.len() as int, words@, w);
        }
    }
    if words.len() == 0 {
        return Err(ParseSourceError::SyntaxError { line: 1 });
    }
    let (ws, we) = words[0];
    proof {
        reveal_strlit("dec");
        assert("dec"@ =~= seq!['d', 'e', 'c']);
    }
    if !word_is(&chars, ws, we, "dec") {
        return Err(ParseSourceError::SyntaxError { line: 1 });
    }
    check_count(words.len() - 1, 1, "dec")?;
    let (rs, re) = words[1];
    match parse_register(&chars, rs, re) {
        Some(n) => {
            proof {
                assert(dec_words(s@, words@, n));
            }
            Ok(Instruction::DECJZ(n, Identifier::Halt))
        },
        None => Err(ParseSourceError::SyntaxError { line: 1 }),
    }
}

/// Parses one instruction line, as line `line_num` of a program: an optional `label:`,
/// then an instruction.
pub fn parse_instruction_line(s: &str, line_num: usize) -> (r: Result<Line, ParseSourceError>)
    ensures
        r matches Ok(l) ==> exists|w: Seq<(usize, usize)>|
            splits(s@, 0, s@.len() as int, w) && line_words(s@, w, line_num, l),
        r is Ok <==> exists|w: Seq<(usize, usize)>|
            splits(s@, 0, s@.len() as int, w) && spells_line(s@, w, line_num),
{
    let chars = chars_of(s);
    let words = words_of(&chars);
    proof {
        assert forall|w: Seq<(usize, usize)>| #[trigger] splits(s@, 0, s@.len() as int, w) implies w
            == words@ by {
            lemma_splits_unique(chars@, 0, chars@.len() as int, words@, w);
        }
    }
    if words.len() == 0 {
        proof {
            assert forall|l: Line| !line_words(s@, words@, line_num, l) by {}
        }
        return Err(ParseSourceError::SyntaxError { line: 1 });
    }
    parse_line_words(s, &chars, &words, line_num, 1)
}

/// A jump target as written: `halt` in any case is the halt, anything else a label.
pub fn parse_label(s: &str) -> (r: Identifier)
    ensures
        is_halt_word(s@) ==> r == Identifier::Halt,
        !is_halt_word(s@) ==> (r matches Identifier::Label(name) && name@ == s@),
{
    let chars = chars_of(s);
    if is_halt(&chars, 0, chars.len()) {
        proof {
            assert(chars@.subrange(0, chars@.len() as int) =~= s@);
        }
        Identifier::Halt
    } else {
        proof {
            assert(chars@.subrange(0, chars@.len() as int) =~= s@);
        }
        Identifier::Label(s.to_owned())
    }
}

impl std::str::FromStr for Identifier {
    type Err = std::convert::Infallible;

    /// A jump target as written: `halt` in any case is the halt, anything else a label.
    fn from_str(s: &str) -> Result<Self, Self::Err> {
        Ok(parse_label(s))
    }
}

} // verus!
