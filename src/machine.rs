use vstd::prelude::*;

use crate::instruction::{instruction_text, Instruction};
use crate::text::{decimal, push_decimal, push_str};
use crate::memory::{Memory, MemoryModel, RegisterNumber};
use crate::vecmap::{has_key, is_first_index, lemma_first_index, lookup, VecMap};

verus! {

/// Where a jump goes: a label, a line index, or the halt.
#[derive(Debug, PartialEq, Eq, Hash)]
pub enum Identifier {
    Label(String),
    Line(usize),
    Halt,
}

impl Clone for Identifier {
    fn clone(&self) -> (r: Self)
        ensures
            r == *self,
    {
        match self {
            Identifier::Label(s) => Identifier::Label(s.clone()),
            Identifier::Line(n) => Identifier::Line(*n),
            Identifier::Halt => Identifier::Halt,
        }
    }
}

/// How a jump target is written: the label, the line index, or `HALT`.
pub open spec fn identifier_text(id: Identifier) -> Seq<char> {
    match id {
        Identifier::Label(s) => s@,
        Identifier::Line(n) => decimal(n as nat),
        Identifier::Halt => seq!['H', 'A', 'L', 'T'],
    }
}

impl Identifier {
    /// How the target is written: the label, the line index, or `HALT`.
    pub fn to_text(&self) -> (r: String)
        ensures
            r@ == identifier_text(*self),
    {
        let mut out = String::new();
        match self {
            Identifier::Label(s) => push_str(&mut out, s.as_str()),
            Identifier::Line(n) => push_decimal(&mut out, *n as u128),
            Identifier::Halt => {
                proof {
                    reveal_strlit("HALT");
                }
                push_str(&mut out, "HALT");
            },
        }
        out
    }
}

/// How a line is shown: its number, four spaces, its label and a colon if it declares
/// one, and its instruction: `1    some_label: decjz r0 HALT`.
pub open spec fn line_text(l: Line) -> Seq<char> {
    decimal(l.line_number as nat) + seq![' ', ' ', ' ', ' '] + match l.id {
        Some(Identifier::Label(s)) => s@ + seq![':', ' '],
        _ => seq![],
    } + instruction_text(l.instruction)
}

/// One line of a program: its number, the label it declares, and its instruction.
#[derive(Debug, PartialEq)]
pub struct Line {
    pub line_number: usize,
    pub id: Option<Identifier>,
    pub instruction: Instruction,
}

impl Clone for Line {
    fn clone(&self) -> (r: Self)
        ensures
            r == *self,
    {
        let id = match &self.id {
            Some(i) => Some(i.clone()),
            None => None,
        };
        Line { line_number: self.line_number, id, instruction: self.instruction.clone() }
    }
}

impl Line {
    pub fn new(line_number: usize, id: Option<Identifier>, instruction: Instruction) -> (r: Line)
        ensures
            r == (Line { line_number, id, instruction }),
    {
        Line { line_number, id, instruction }
    }

    /// How the line is shown: `1    some_label: decjz r0 HALT`.
    pub fn to_text(&self) -> (r: String)
        ensures
            r@ == line_text(*self),
    {
        let mut out = String::new();
        push_decimal(&mut out, self.line_number as u128);
        proof {
            reveal_strlit("    ");
            reveal_strlit(": ");
        }
        push_str(&mut out, "    ");
        match &self.id {
            Some(Identifier::Label(s)) => {
                push_str(&mut out, s.as_str());
                push_str(&mut out, ": ");
            },
            _ => {},
        }
        push_str(&mut out, self.instruction.to_text().as_str());
        proof {
            assert(out@ =~= line_text(*self));
        }
        out
    }

    pub fn change_id(&mut self, new_id: Option<Identifier>)
        ensures
            *final(self) == (Line { id: new_id, ..*old(self) }),
    {
        self.id = new_id;
    }
}

/// Why an edit of a machine failed.
#[derive(Debug, PartialEq)]
pub enum MachineEditError {
    /// The label is bound already, to `line`.
    LabelAlreadyExists { label: String, line: usize },
    /// No line declares the label.
    LabelNotFound { label: String },
    /// The line number is past `last_line`, the largest one that may be named.
    LineNumberTooBig { line_num: usize, last_line: usize },
}

/// Why a run or a step failed.
#[derive(Debug, PartialEq)]
pub enum RuntimeError {
    /// The machine has halted already.
    Halted,
    /// No step is recorded to undo.
    CannotUndo,
}

/// Why a debug run stopped.
#[derive(Debug, PartialEq, Eq)]
pub enum TerminationReason {
    /// A breakpoint was reached.
    Breakpoint,
    /// The program has no lines of instructions.
    Empty,
    /// The program halted.
    Halted,
    /// The step budget ran out first.
    StepLimit,
}

/// The label a line declares.
pub open spec fn declared_label(l: Line) -> Option<String> {
    match l.id {
        Some(Identifier::Label(s)) => Some(s),
        _ => None,
    }
}

/// The label table of a program: each declared label with the index of its line, in
/// order.
pub open spec fn label_table(lines: Seq<Line>) -> Seq<(String, usize)>
    decreases lines.len(),
{
    if lines.len() == 0 {
        seq![]
    } else {
        let t = label_table(lines.drop_last());
        match declared_label(lines.last()) {
            Some(s) => t.push((s, (lines.len() - 1) as usize)),
            None => t,
        }
    }
}

/// Line `j` declares a label that a line before it declared already.
pub open spec fn clash_at(lines: Seq<Line>, j: int) -> bool {
    0 <= j < lines.len() && match declared_label(lines[j]) {
        Some(s) => has_key(label_table(lines.take(j)), s@),
        None => false,
    }
}

/// Two lines declare the same label.
pub open spec fn has_clash(lines: Seq<Line>) -> bool {
    exists|j: int| clash_at(lines, j)
}

/// Line `j` is the first that repeats a label.
pub open spec fn first_clash(lines: Seq<Line>, j: int) -> bool {
    clash_at(lines, j) && forall|k: int| 0 <= k < j ==> !clash_at(lines, k)
}

/// The jump target of line `j` names a label that `table` lacks.
pub open spec fn unknown_label_at(lines: Seq<Line>, table: Seq<(String, usize)>, j: int) -> bool {
    0 <= j < lines.len() && match lines[j].instruction {
        Instruction::DECJZ(_, Identifier::Label(s)) => !has_key(table, s@),
        _ => false,
    }
}

/// The jump target of line `j` is a line number past the end.
pub open spec fn line_too_big_at(lines: Seq<Line>, j: int) -> bool {
    0 <= j < lines.len() && match lines[j].instruction {
        Instruction::DECJZ(_, Identifier::Line(n)) => n > lines.len(),
        _ => false,
    }
}

/// The jump target of line `j` cannot be resolved.
pub open spec fn bad_target_at(lines: Seq<Line>, j: int) -> bool {
    unknown_label_at(lines, label_table(lines), j) || line_too_big_at(lines, j)
}

/// Line `j` is the first whose jump target cannot be resolved.
pub open spec fn first_bad_target(lines: Seq<Line>, j: int) -> bool {
    bad_target_at(lines, j) && forall|k: int| 0 <= k < j ==> !bad_target_at(lines, k)
}

/// A line with a label target replaced by the index of the label's line.
pub open spec fn resolved_line(l: Line, table: Seq<(String, usize)>) -> Line {
    match l.instruction {
        Instruction::DECJZ(n, Identifier::Label(s)) => Line {
            instruction: Instruction::DECJZ(n, Identifier::Line(lookup(table, s@)->0)),
            ..l
        },
        _ => l,
    }
}

/// No label is bound twice.
pub open spec fn labels_unique(t: Seq<(String, usize)>) -> bool {
    forall|i: int, j: int| 0 <= i < j < t.len() ==> (#[trigger] t[i]).0@ != (#[trigger] t[j]).0@
}

/// Lines that declare no label twice make a table that binds no label twice.
pub proof fn lemma_table_unique(lines: Seq<Line>)
    requires
        !has_clash(lines),
    ensures
        labels_unique(label_table(lines)),
    decreases lines.len(),
{
    if lines.len() > 0 {
        let d = lines.drop_last();
        let n = lines.len() - 1;
        assert forall|j: int| clash_at(d, j) implies clash_at(lines, j) by {
            assert(d.take(j) =~= lines.take(j));
        }
        lemma_table_unique(d);
        let t = label_table(d);
        assert(lines.take(n) =~= d);
        assert(!clash_at(lines, n));
        match declared_label(lines.last()) {
            Some(s) => {
                let nt = t.push((s, n as usize));
                assert forall|i: int, j: int| 0 <= i < j < nt.len() implies (#[trigger] nt[i]).0@
                    != (#[trigger] nt[j]).0@ by {
                    if j == nt.len() - 1 {
                        assert(nt[i] == t[i]);
                        assert(!has_key(t, s@));
                    } else {
                        assert(nt[i] == t[i] && nt[j] == t[j]);
                    }
                }
            },
            None => {},
        }
    }
}

/// Each entry of the label table binds a line of the program.
pub proof fn lemma_table_bounds(lines: Seq<Line>)
    ensures
        forall|k: int|
            0 <= k < label_table(lines).len() ==> (#[trigger] label_table(lines)[k]).1 < lines.len(),
    decreases lines.len(),
{
    if lines.len() > 0 {
        let t = label_table(lines.drop_last());
        lemma_table_bounds(lines.drop_last());
        assert forall|k: int| 0 <= k < label_table(lines).len() implies (
        #[trigger] label_table(lines)[k]).1 < lines.len() by {
            if k < t.len() {
                assert(label_table(lines)[k] == t[k]);
            }
        }
    }
}

/// The lines make a machine: no label is declared twice and every jump target resolves.
pub open spec fn buildable(lines: Seq<Line>) -> bool {
    !has_clash(lines) && forall|j: int| !bad_target_at(lines, j)
}

/// The machine built from the lines, with `memory` as its registers: each jump to a label
/// made a jump to the index of the label's line, the pointer at the first line, no
/// breakpoints and nothing to undo.
pub open spec fn built_model(lines: Seq<Line>, memory: MemoryModel) -> MachineModel {
    MachineModel {
        lines: lines.map_values(|l: Line| resolved_line(l, label_table(lines))),
        pointer: 0,
        initial: memory,
        memory,
        labels: label_table(lines),
        breakpoints: seq![],
        previous: None,
    }
}

/// Building from the lines fails with `e`: at the first line that repeats a label; else
/// at the first line whose jump names an unknown label or a line past the end.
pub open spec fn build_error(lines: Seq<Line>, e: MachineEditError) -> bool {
    match e {
        MachineEditError::LabelAlreadyExists { label, line } => exists|j: int|
            first_clash(lines, j) && declared_label(lines[j]) == Some(label) && lookup(
                label_table(lines.take(j)),
                label@,
            ) == Some(line),
        MachineEditError::LabelNotFound { label } => !has_clash(lines) && exists|j: int|
            first_bad_target(lines, j) && (lines[j].instruction matches Instruction::DECJZ(
                _,
                Identifier::Label(s),
            ) && s == label),
        MachineEditError::LineNumberTooBig { line_num, last_line } => !has_clash(lines) && exists|
            j: int,
        |
            first_bad_target(lines, j) && (lines[j].instruction matches Instruction::DECJZ(
                _,
                Identifier::Line(n),
            ) && n == line_num) && last_line == lines.len(),
    }
}

/// A jump target a running machine can take: the halt, or a line index up to the end.
pub open spec fn target_ok(t: Identifier, len: nat) -> bool {
    match t {
        Identifier::Halt => true,
        Identifier::Line(n) => n <= len,
        Identifier::Label(_) => false,
    }
}

/// Every jump target of the lines is one a running machine can take.
pub open spec fn lines_ok(lines: Seq<Line>) -> bool {
    forall|i: int|
        0 <= i < lines.len() ==> match (#[trigger] lines[i]).instruction {
            Instruction::INC(_) => true,
            Instruction::DECJZ(_, t) => target_ok(t, lines.len()),
        }
}

/// Where a jump to `t` puts the pointer of a machine with `len` lines: the halt goes one
/// past the end.
pub open spec fn jump_dest(t: Identifier, len: nat) -> nat {
    match t {
        Identifier::Halt => len + 1,
        Identifier::Line(n) => n as nat,
        Identifier::Label(_) => len + 1,
    }
}

/// The state of a machine.
pub struct MachineModel {
    pub lines: Seq<Line>,
    pub pointer: nat,
    pub initial: MemoryModel,
    pub memory: MemoryModel,
    pub labels: Seq<(String, usize)>,
    pub breakpoints: Seq<usize>,
    pub previous: Option<(nat, MemoryModel)>,
}

impl MachineModel {
    pub open spec fn wf(self) -> bool {
        &&& self.lines.len() < usize::MAX
        &&& lines_ok(self.lines)
        &&& self.pointer <= usize::MAX
        &&& self.initial.wf()
        &&& self.memory.wf()
        &&& self.breakpoints.no_duplicates()
        &&& labels_unique(self.labels)
        &&& match self.previous {
            Some((p, m)) => p <= usize::MAX && m.wf(),
            None => true,
        }
    }

    /// The pointer is at or past the end.
    pub open spec fn halted(self) -> bool {
        self.pointer >= self.lines.len()
    }

    /// The pointer is at a breakpoint.
    pub open spec fn at_breakpoint(self) -> bool {
        self.breakpoints.contains(self.pointer as usize)
    }

    /// The state after the line at the pointer runs; only the pointer and the registers
    /// change.
    pub open spec fn after_step(self) -> MachineModel {
        let ins = self.lines[self.pointer as int].instruction;
        let pointer = match ins.jump_on(self.memory) {
            Some(t) => jump_dest(t, self.lines.len()),
            None => self.pointer + 1,
        };
        MachineModel { pointer, memory: ins.memory_after(self.memory), ..self }
    }

    /// The state after up to `k` steps, stopping at a halt.
    pub open spec fn run_steps(self, k: nat) -> MachineModel
        decreases k,
    {
        if k == 0 {
            self
        } else {
            let p = self.run_steps((k - 1) as nat);
            if p.halted() {
                p
            } else {
                p.after_step()
            }
        }
    }

    /// The state after up to `k` steps, stopping at a halt or before a step from a
    /// breakpoint.
    pub open spec fn debug_steps(self, k: nat) -> MachineModel
        decreases k,
    {
        if k == 0 {
            self
        } else {
            let p = self.debug_steps((k - 1) as nat);
            if p.halted() || p.at_breakpoint() {
                p
            } else {
                p.after_step()
            }
        }
    }

    /// The state after a step by hand: the step, with the state before it recorded for an
    /// undo.
    pub open spec fn after_recorded_step(self) -> MachineModel {
        MachineModel { previous: Some((self.pointer, self.memory)), ..self.after_step() }
    }

    /// The state after an undo of the recorded step.
    pub open spec fn after_undo(self) -> MachineModel {
        match self.previous {
            Some((p, m)) => MachineModel { pointer: p, memory: m, previous: None, ..self },
            None => self,
        }
    }

    /// The line index that `id` names, as a jump would take it, if it names one.
    pub open spec fn resolve(self, id: Identifier) -> Option<nat> {
        match id {
            Identifier::Halt => Some(self.lines.len() + 1),
            Identifier::Line(n) => if n <= self.lines.len() {
                Some(n as nat)
            } else {
                None
            },
            Identifier::Label(s) => match lookup(self.labels, s@) {
                Some(n) => Some(n as nat),
                None => None,
            },
        }
    }

    /// The error for an identifier that names no line.
    pub open spec fn resolve_error(self, id: Identifier) -> MachineEditError {
        match id {
            Identifier::Label(s) => MachineEditError::LabelNotFound { label: s },
            Identifier::Line(n) => MachineEditError::LineNumberTooBig {
                line_num: n,
                last_line: self.lines.len() as usize,
            },
            Identifier::Halt => MachineEditError::LabelNotFound { label: arbitrary() },
        }
    }
}

/// A step on a `DECJZ` line does one of two things, never both: on a register that holds
/// zero it moves the pointer as its target says and leaves the register's value alone; on
/// another it takes one from the register and moves the pointer to the next line.
pub proof fn lemma_decjz_step(m: MachineModel, n: RegisterNumber, t: Identifier)
    requires
        m.wf(),
        !m.halted(),
        m.lines[m.pointer as int].instruction == Instruction::DECJZ(n, t),
    ensures
        m.memory.value_of(n) == 0 ==> m.after_step().pointer == jump_dest(t, m.lines.len())
            && m.after_step().memory.value_of(n) == 0,
        m.memory.value_of(n) > 0 ==> m.after_step().pointer == m.pointer + 1
            && m.after_step().memory.value_of(n) + 1 == m.memory.value_of(n),
        m.after_step().memory.wf(),
{
    crate::memory::lemma_read_dec_values(m.memory, n);
    crate::memory::lemma_read_dec_values(m.memory.after_read(n), n);
}

/// A step then an undo give back the pointer and the registers as they were before the
/// step; a second undo then finds nothing to undo.
pub proof fn lemma_step_undo(m: MachineModel)
    requires
        m.wf(),
        !m.halted(),
    ensures
        m.after_recorded_step().previous is Some,
        m.after_recorded_step().after_undo().pointer == m.pointer,
        m.after_recorded_step().after_undo().memory == m.memory,
        m.after_recorded_step().after_undo().lines == m.lines,
        m.after_recorded_step().after_undo().breakpoints == m.breakpoints,
        m.after_recorded_step().after_undo().previous is None,
{
}

/// A machine for a counter program, with the state that a debugger works on.
#[derive(Debug, PartialEq)]
pub struct Machine {
    lines: Vec<Line>,
    current_line: usize,
    initial_memory: Memory,
    memory: Memory,
    labels: VecMap<String, usize>,
    breakpoints: Vec<usize>,
    previous: Option<(usize, Memory)>,
}

impl View for Machine {
    type V = MachineModel;

    closed spec fn view(&self) -> MachineModel {
        MachineModel {
            lines: self.lines@,
            pointer: self.current_line as nat,
            initial: self.initial_memory@,
            memory: self.memory@,
            labels: self.labels@,
            breakpoints: self.breakpoints@,
            previous: match self.previous {
                Some((p, m)) => Some((p as nat, m@)),
                None => None,
            },
        }
    }
}

impl Default for Machine {
    /// A machine with no lines and no registers.
    fn default() -> (r: Self)
        ensures
            r.wf(),
            r@.lines.len() == 0,
            r@.pointer == 0,
            r@.labels.len() == 0,
            r@.breakpoints.len() == 0,
            r@.previous is None,
            r@.memory.natural.len() == 0 && r@.memory.negative.len() == 0,
            r@.initial.natural.len() == 0 && r@.initial.negative.len() == 0,
    {
        Machine {
            lines: Vec::new(),
            current_line: 0,
            initial_memory: Memory::default(),
            memory: Memory::default(),
            labels: VecMap::default(),
            breakpoints: Vec::new(),
            previous: None,
        }
    }
}

impl Machine {
    pub open spec fn wf(&self) -> bool {
        self@.wf()
    }

    /// The label table of the first `i` lines is the table built from them.
    proof fn lemma_table_step(lines: Seq<Line>, i: int)
        requires
            0 <= i < lines.len(),
        ensures
            label_table(lines.take(i + 1)) == match declared_label(lines[i]) {
                Some(s) => label_table(lines.take(i)).push((s, i as usize)),
                None => label_table(lines.take(i)),
            },
    {
        assert(lines.take(i + 1).drop_last() =~= lines.take(i));
    }

    /// A machine for the lines, with `memory` as its registers, the pointer at the first
    /// line, no breakpoints and nothing to undo. Each declared label is bound to the index
    /// of its line, and each jump to a label is made a jump to that index. Fails on the
    /// first line that repeats a label; then, on the first line whose jump names an
    /// unknown label or a line past the end.
    pub fn new_from_lines(lines_slice: &[Line], memory: Memory) -> (r: Result<
        Machine,
        MachineEditError,
    >)
        requires
            memory.wf(),
            lines_slice@.len() < usize::MAX,
        ensures
            r is Ok <==> buildable(lines_slice@),
            r matches Ok(m) ==> m.wf() && m@ == built_model(lines_slice@, memory@),
            r matches Err(e) ==> build_error(lines_slice@, e),
            has_clash(lines_slice@) <==> r matches Err(MachineEditError::LabelAlreadyExists { .. }),
    {
        let ghost ls = lines_slice@;
        let n = lines_slice.len();
        // The label table.
        let mut labels: VecMap<String, usize> = VecMap::default();
        let mut i: usize = 0;
        while i < n
            invariant
                ls == lines_slice@,
                n == ls.len(),
                i <= n,
                labels@ == label_table(ls.take(i as int)),
                forall|k: int| 0 <= k < i ==> !clash_at(ls, k),
            decreases n - i,
        {
            proof {
                Self::lemma_table_step(ls, i as int);
                assert(ls.take(i as int + 1).take(i as int) =~= ls.take(i as int));
            }
            match &lines_slice[i].id {
                Some(Identifier::Label(s)) => {
                    match labels.get(s) {
                        Some(j) => {
                            let line = *j;
                            proof {
                                assert(clash_at(ls, i as int));
                                assert(first_clash(ls, i as int));
                            }
                            return Err(MachineEditError::LabelAlreadyExists { label: s.clone(), line });
                        },
                        None => {},
                    }
                    labels.update(s.clone(), i);
                },
                _ => {},
            }
            i = i + 1;
        }
        proof {
            assert(ls.take(n as int) =~= ls);
            assert(!has_clash(ls));
        }
        let ghost table = labels@;
        // Jumps to labels become jumps to line indices.
        let mut out: Vec<Line> = Vec::new();
        let mut i: usize = 0;
        while i < n
            invariant
                ls == lines_slice@,
                n == ls.len(),
                n < usize::MAX,
                !has_clash(ls),
                i <= n,
                table == label_table(ls),
                labels@ == table,
                out@.len() == i,
                forall|k: int| 0 <= k < i ==> out@[k] == resolved_line(#[trigger] ls[k], table),
                forall|k: int| 0 <= k < i ==> !bad_target_at(ls, k),
                forall|k: int|
                    0 <= k < i ==> match (#[trigger] out@[k]).instruction {
                        Instruction::INC(_) => true,
                        Instruction::DECJZ(_, t) => target_ok(t, n as nat),
                    },
            decreases n - i,
        {
            let l = lines_slice[i].clone();
            let resolved = match &l.instruction {
                Instruction::DECJZ(reg, Identifier::Label(s)) => {
                    match labels.get(s) {
                        Some(j) => {
                            let target = *j;
                            proof {
                                lemma_table_bounds(ls);
                                let k = choose|k: int| is_first_index(table, s@, k) && *j == table[k].1;
                                assert(table[k] == label_table(ls)[k]);
                            }
                            Line {
                                line_number: l.line_number,
                                id: l.id,
                                instruction: Instruction::DECJZ(*reg, Identifier::Line(target)),
                            }
                        },
                        None => {
                            proof {
                                assert(first_bad_target(ls, i as int));
                            }
                            return Err(MachineEditError::LabelNotFound { label: s.clone() });
                        },
                    }
                },
                Instruction::DECJZ(_, Identifier::Line(t)) => {
                    if *t > n {
                        proof {
                            assert(first_bad_target(ls, i as int));
                        }
                        return Err(
                            MachineEditError::LineNumberTooBig { line_num: *t, last_line: n },
                        );
                    }
                    l
                },
                _ => l,
            };
            out.push(resolved);
            i = i + 1;
        }
        let initial_memory = memory.clone();
        let m = Machine {
            lines: out,
            current_line: 0,
            initial_memory,
            memory,
            labels,
            breakpoints: Vec::new(),
            previous: None,
        };
        proof {
            lemma_table_unique(ls);
            assert(forall|j: int| !bad_target_at(ls, j));
            assert(m@.lines =~= built_model(ls, memory@).lines);
            assert(m@.breakpoints =~= Seq::<usize>::empty());
        }
        Ok(m)
    }

    /// Runs the line at the pointer; the machine must not have halted.
    pub(crate) fn step_unchecked(&mut self)
        requires
            old(self).wf(),
            !old(self)@.halted(),
        ensures
            final(self).wf(),
            final(self)@ == old(self)@.after_step(),
    {
        let ghost m = self@;
        let len = self.lines.len();
        let jump = self.lines[self.current_line].instruction.execute(&mut self.memory);
        match jump {
            Some(Identifier::Line(n)) => {
                self.current_line = n;
            },
            Some(_) => {
                self.current_line = len + 1;
            },
            None => {
                self.current_line = self.current_line + 1;
            },
        }
        proof {
            let ins = m.lines[m.pointer as int].instruction;
            assert(lines_ok(m.lines));
            assert(match ins {
                Instruction::INC(_) => true,
                Instruction::DECJZ(_, t) => target_ok(t, m.lines.len()),
            });
            assert(self@ =~= m.after_step());
        }
    }

    /// Runs the line at the pointer, and records the pointer and the registers from
    /// before, for an undo. Answers `Halted` when the machine is halted after the step;
    /// fails, changing nothing, when it had halted already.
    pub fn step(&mut self) -> (r: Result<Option<TerminationReason>, RuntimeError>)
        requires
            old(self).wf(),
        ensures
            final(self).wf(),
            old(self)@.halted() ==> r == Err::<Option<TerminationReason>, RuntimeError>(
                RuntimeError::Halted,
            ) && final(self)@ == old(self)@,
            !old(self)@.halted() ==> final(self)@ == old(self)@.after_recorded_step() && r == Ok::<
                Option<TerminationReason>,
                RuntimeError,
            >(if final(self)@.halted() { Some(TerminationReason::Halted) } else { None }),
    {
        if self.current_line >= self.lines.len() {
            return Err(RuntimeError::Halted);
        }
        let before = (self.current_line, self.memory.clone());
        self.step_unchecked();
        self.previous = Some(before);
        if self.current_line >= self.lines.len() {
            Ok(Some(TerminationReason::Halted))
        } else {
            Ok(None)
        }
    }

    /// Takes a step and hands back the line the pointer is at after it; fails when the
    /// machine had halted already or halts with the step.
    pub fn step_with_line(&mut self) -> (r: Result<&Line, RuntimeError>)
        requires
            old(self).wf(),
        ensures
            final(self).wf(),
            old(self)@.halted() ==> final(self)@ == old(self)@,
            !old(self)@.halted() ==> final(self)@ == old(self)@.after_recorded_step(),
            r is Err <==> final(self)@.halted(),
            r matches Err(e) ==> e == RuntimeError::Halted,
            r matches Ok(l) ==> *l == final(self)@.lines[final(self)@.pointer as int],
    {
        let _ = self.step();
        if self.current_line < self.lines.len() {
            Ok(&self.lines[self.current_line])
        } else {
            Err(RuntimeError::Halted)
        }
    }

    /// Runs until the machine halts, taking at most `max_steps` steps; hands back the
    /// number taken.
    pub fn run_for(&mut self, max_steps: u64) -> (taken: u64)
        requires
            old(self).wf(),
        ensures
            final(self).wf(),
            taken <= max_steps,
            final(self)@ == old(self)@.run_steps(taken as nat),
            taken < max_steps ==> final(self)@.halted(),
    {
        let ghost m = self@;
        let mut taken: u64 = 0;
        while taken < max_steps && self.current_line < self.lines.len()
            invariant
                self.wf(),
                taken <= max_steps,
                self@ == m.run_steps(taken as nat),
            decreases max_steps - taken,
        {
            self.step_unchecked();
            taken = taken + 1;
        }
        taken
    }

    /// Runs until the machine halts. A program with no lines changes nothing. A program
    /// that has not halted after `u64::MAX` steps is left where it stands.
    pub fn run(&mut self)
        requires
            old(self).wf(),
        ensures
            final(self).wf(),
            exists|k: nat|
                k <= u64::MAX && final(self)@ == old(self)@.run_steps(k) && (final(self)@.halted()
                    || k == u64::MAX),
    {
        if self.lines.len() == 0 {
            proof {
                assert(self@ == self@.run_steps(0));
            }
            return;
        }
        let taken = self.run_for(u64::MAX);
        assert(self@.halted() || taken == u64::MAX);
    }

    /// Runs until the machine halts or the pointer, before a step, is at a breakpoint,
    /// taking at most `max_steps` steps.
    pub fn debug_for(&mut self, max_steps: u64) -> (r: Result<TerminationReason, RuntimeError>)
        requires
            old(self).wf(),
        ensures
            final(self).wf(),
            old(self)@.lines.len() == 0 ==> r == Ok::<TerminationReason, RuntimeError>(
                TerminationReason::Empty,
            ) && final(self)@ == old(self)@,
            old(self)@.lines.len() > 0 ==> exists|k: nat|
                k <= max_steps && final(self)@ == old(self)@.debug_steps(k) && r == Ok::<
                    TerminationReason,
                    RuntimeError,
                >(
                    if final(self)@.halted() {
                        TerminationReason::Halted
                    } else if final(self)@.at_breakpoint() {
                        TerminationReason::Breakpoint
                    } else {
                        TerminationReason::StepLimit
                    },
                ) && (k < max_steps ==> final(self)@.halted() || final(self)@.at_breakpoint()),
    {
        if self.lines.len() == 0 {
            return Ok(TerminationReason::Empty);
        }
        let ghost m = self@;
        let mut taken: u64 = 0;
        while taken < max_steps && self.current_line < self.lines.len()
            && !self.is_breakpoint(self.current_line)
            invariant
                self.wf(),
                taken <= max_steps,
                self@ == m.debug_steps(taken as nat),
            decreases max_steps - taken,
        {
            self.step_unchecked();
            taken = taken + 1;
        }
        if self.current_line >= self.lines.len() {
            Ok(TerminationReason::Halted)
        } else if self.is_breakpoint(self.current_line) {
            Ok(TerminationReason::Breakpoint)
        } else {
            Ok(TerminationReason::StepLimit)
        }
    }

    /// Runs until the machine halts or the pointer, before a step, is at a breakpoint. A
    /// machine already at a breakpoint stays there.
    pub fn debug(&mut self) -> (r: Result<TerminationReason, RuntimeError>)
        requires
            old(self).wf(),
        ensures
            final(self).wf(),
            old(self)@.lines.len() == 0 ==> r == Ok::<TerminationReason, RuntimeError>(
                TerminationReason::Empty,
            ) && final(self)@ == old(self)@,
            old(self)@.lines.len() > 0 ==> exists|k: nat|
                k <= u64::MAX && final(self)@ == old(self)@.debug_steps(k) && r == Ok::<
                    TerminationReason,
                    RuntimeError,
                >(
                    if final(self)@.halted() {
                        TerminationReason::Halted
                    } else if final(self)@.at_breakpoint() {
                        TerminationReason::Breakpoint
                    } else {
                        TerminationReason::StepLimit
                    },
                ) && (k < u64::MAX ==> final(self)@.halted() || final(self)@.at_breakpoint()),
    {
        self.debug_for(u64::MAX)
    }

    fn is_breakpoint(&self, line: usize) -> (r: bool)
        ensures
            r == self@.breakpoints.contains(line),
    {
        let mut i: usize = 0;
        while i < self.breakpoints.len()
            invariant
                i <= self@.breakpoints.len(),
                forall|j: int| 0 <= j < i ==> self@.breakpoints[j] != line,
            decreases self@.breakpoints.len() - i,
        {
            if self.breakpoints[i] == line {
                return true;
            }
            i = i + 1;
        }
        false
    }

    /// The line index that `id` names, as a jump would take it.
    fn resolve_identifier(&self, id: &Identifier) -> (r: Result<usize, MachineEditError>)
        requires
            self.wf(),
        ensures
            r matches Ok(n) ==> self@.resolve(*id) == Some(n as nat),
            r matches Err(e) ==> self@.resolve(*id) is None && e == self@.resolve_error(*id),
    {
        match id {
            Identifier::Halt => Ok(self.lines.len() + 1),
            Identifier::Line(n) => {
                if *n <= self.lines.len() {
                    Ok(*n)
                } else {
                    Err(
                        MachineEditError::LineNumberTooBig {
                            line_num: *n,
                            last_line: self.lines.len(),
                        },
                    )
                }
            },
            Identifier::Label(s) => match self.labels.get(s) {
                Some(n) => Ok(*n),
                None => Err(MachineEditError::LabelNotFound { label: s.clone() }),
            },
        }
    }

    /// Adds a breakpoint at the line that `id` names (as a jump would take it), or removes
    /// the one there.
    pub fn toggle_breakpoint(&mut self, id: &Identifier) -> (r: Result<(), MachineEditError>)
        requires
            old(self).wf(),
        ensures
            final(self).wf(),
            r is Ok <==> old(self)@.resolve(*id) is Some,
            r matches Err(e) ==> e == old(self)@.resolve_error(*id) && final(self)@ == old(self)@,
            old(self)@.resolve(*id) matches Some(n) ==> {
                &&& final(self)@ == (MachineModel { breakpoints: final(self)@.breakpoints, ..old(self)@ })
                &&& final(self)@.breakpoints.contains(n as usize) != old(self)@.breakpoints.contains(
                    n as usize,
                )
                &&& forall|x: usize|
                    x != n ==> (final(self)@.breakpoints.contains(x)
                        == old(self)@.breakpoints.contains(x))
            },
    {
        let n = match self.resolve_identifier(id) {
            Ok(n) => n,
            Err(e) => return Err(e),
        };
        let ghost b = self.breakpoints@;
        let ghost m0 = self@;
        let mut i: usize = 0;
        while i < self.breakpoints.len()
            invariant
                self@ == m0,
                m0 == old(self)@,
                m0.wf(),
                m0.resolve(*id) == Some(n as nat),
                self.breakpoints@ == b,
                i <= b.len(),
                forall|j: int| 0 <= j < i ==> b[j] != n,
            decreases b.len() - i,
        {
            if self.breakpoints[i] == n {
                self.breakpoints.remove(i);
                proof {
                    let after = b.remove(i as int);
                    assert(self.breakpoints@ == after);
                    assert forall|x: usize| x != n implies after.contains(x) == b.contains(x) by {
                        if b.contains(x) {
                            let k = choose|k: int| 0 <= k < b.len() && b[k] == x;
                            if k < i {
                                assert(after[k] == x);
                            } else {
                                assert(k != i);
                                assert(after[k - 1] == x);
                            }
                        }
                    }
                    assert(!after.contains(n)) by {
                        if after.contains(n) {
                            let k = choose|k: int| 0 <= k < after.len() && after[k] == n;
                            if k < i {
                                assert(b[k] == n);
                            } else {
                                assert(b[k + 1] == n);
                                assert(b[i as int] == n);
                            }
                        }
                    }
                    assert(b[i as int] == n);
                    assert(after.no_duplicates()) by {
                        assert forall|p: int, q: int|
                            0 <= p < after.len() && 0 <= q < after.len() && p != q implies after[p]
                            != after[q] by {
                            let bp = if p < i { p } else { p + 1 };
                            let bq = if q < i { q } else { q + 1 };
                            assert(after[p] == b[bp]);
                            assert(after[q] == b[bq]);
                        }
                    }
                }
                return Ok(());
            }
            i = i + 1;
        }
        self.breakpoints.push(n);
        proof {
            assert(!b.contains(n));
            let after = b.push(n);
            assert(after.contains(n)) by {
                assert(after[b.len() as int] == n);
            }
            assert forall|x: usize| x != n implies after.contains(x) == b.contains(x) by {
                if b.contains(x) {
                    let k = choose|k: int| 0 <= k < b.len() && b[k] == x;
                    assert(after[k] == x);
                }
                if after.contains(x) {
                    let k = choose|k: int| 0 <= k < after.len() && after[k] == x;
                    assert(b[k] == x);
                }
            }
        }
        Ok(())
    }

    /// Binds `label` to `line_number`; fails, changing nothing, if it is bound already.
    pub fn add_new_label(&mut self, label: String, line_number: usize) -> (r: Result<
        (),
        MachineEditError,
    >)
        requires
            old(self).wf(),
        ensures
            final(self).wf(),
            lookup(old(self)@.labels, label@) matches Some(l) ==> r == Err::<(), MachineEditError>(
                (MachineEditError::LabelAlreadyExists { label, line: l }),
            ) && final(self)@ == old(self)@,
            lookup(old(self)@.labels, label@) is None ==> r is Ok && final(self)@ == (MachineModel {
                labels: old(self)@.labels.push((label, line_number)),
                ..old(self)@
            }),
    {
        match self.labels.get(&label) {
            Some(n) => {
                let line = *n;
                return Err(MachineEditError::LabelAlreadyExists { label, line });
            },
            None => {},
        }
        let ghost t = self.labels@;
        self.labels.update(label, line_number);
        proof {
            let nt = self.labels@;
            assert forall|i: int, j: int| 0 <= i < j < nt.len() implies (#[trigger] nt[i]).0@
                != (#[trigger] nt[j]).0@ by {
                if j == nt.len() - 1 {
                    assert(nt[i] == t[i]);
                } else {
                    assert(nt[i] == t[i] && nt[j] == t[j]);
                }
            }
        }
        Ok(())
    }

    /// Moves the pointer to the line that `id` names: the halt goes one past the end.
    pub fn go_to_identifier(&mut self, id: &Identifier) -> (r: Result<(), MachineEditError>)
        requires
            old(self).wf(),
        ensures
            final(self).wf(),
            r is Ok <==> old(self)@.resolve(*id) is Some,
            r matches Err(e) ==> e == old(self)@.resolve_error(*id) && final(self)@ == old(self)@,
            old(self)@.resolve(*id) matches Some(n) ==> final(self)@ == (MachineModel {
                pointer: n,
                ..old(self)@
            }),
    {
        match self.resolve_identifier(id) {
            Ok(n) => {
                self.current_line = n;
                Ok(())
            },
            Err(e) => Err(e),
        }
    }

    /// Replaces the registers; the pointer stays.
    pub fn replace_memory(&mut self, new_memory: Memory)
        requires
            old(self).wf(),
            new_memory.wf(),
        ensures
            final(self).wf(),
            final(self)@ == (MachineModel { memory: new_memory@, ..old(self)@ }),
    {
        self.memory = new_memory;
    }

    /// Puts the registers back as they were when the machine was made, and the pointer at
    /// the first line.
    pub fn reset(&mut self)
        requires
            old(self).wf(),
        ensures
            final(self).wf(),
            final(self)@ == (MachineModel { memory: old(self)@.initial, pointer: 0, ..old(self)@ }),
    {
        self.memory = self.initial_memory.clone();
        self.current_line = 0;
    }

    /// Puts back the pointer and the registers recorded by the last step by hand, and
    /// forgets them; fails, changing nothing, when nothing is recorded.
    pub fn undo(&mut self) -> (r: Result<(), RuntimeError>)
        requires
            old(self).wf(),
        ensures
            final(self).wf(),
            old(self)@.previous is None ==> r == Err::<(), RuntimeError>(RuntimeError::CannotUndo)
                && final(self)@ == old(self)@,
            old(self)@.previous is Some ==> r is Ok && final(self)@ == old(self)@.after_undo(),
    {
        match self.previous.take() {
            Some((line, memory)) => {
                self.current_line = line;
                self.memory = memory;
                Ok(())
            },
            None => Err(RuntimeError::CannotUndo),
        }
    }

    /// Runs one instruction on the registers alone: the pointer stays and the program is
    /// not read. Hands back the target if the instruction would have jumped.
    pub fn execute(&mut self, instruction: Instruction) -> (r: Option<Identifier>)
        requires
            old(self).wf(),
        ensures
            final(self).wf(),
            final(self)@ == (MachineModel {
                memory: instruction.memory_after(old(self)@.memory),
                ..old(self)@
            }),
            r == instruction.jump_on(old(self)@.memory),
    {
        instruction.execute(&mut self.memory)
    }

    /// The line that shows the natural registers: `registers 5 0 0`.
    pub fn display_nat_registers(&self) -> (r: String)
        requires
            self.wf(),
        ensures
            r@ == crate::memory::registers_line(self@.memory),
    {
        self.memory.to_text()
    }

    /// The value of one register, in decimal.
    pub fn display_register(&self, register_number: RegisterNumber) -> (r: String)
        requires
            self.wf(),
        ensures
            r@ == crate::text::decimal(self@.memory.value_of(register_number)),
    {
        self.memory.value_text(register_number)
    }

    /// The registers.
    pub fn get_state(&self) -> (r: &Memory)
        ensures
            r@ == self@.memory,
    {
        &self.memory
    }

    /// The index of the next line to run.
    pub fn get_current_line_number(&self) -> (r: usize)
        ensures
            r == self@.pointer,
    {
        self.current_line
    }

    /// Whether the pointer is at or past the end.
    pub fn is_halted(&self) -> (r: bool)
        ensures
            r == self@.halted(),
    {
        self.current_line >= self.lines.len()
    }

    /// The next line to run; the machine must not have halted.
    pub fn peek_next_line(&self) -> (r: &Line)
        requires
            !self@.halted(),
        ensures
            *r == self@.lines[self@.pointer as int],
    {
        &self.lines[self.current_line]
    }
}

} // verus!
