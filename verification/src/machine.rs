//! The machine as a mathematical value, and what one instruction does to it.

use crate::cell::{
    lemma_step_wraps, lemma_wrap_in_range, lemma_wrap_of_sum, predecessor, successor, wrap_into,
    Cell,
};
use crate::error::BfError;
use crate::program::{
    depth, is_pair, lemma_open_unique, linked, symbols, Instruction, SYM_LOOP_END, SYM_LOOP_START,
};
use vstd::prelude::*;

verus! {

/// What the machine asks of its surroundings after a step.
#[derive(Debug, Clone, Copy, PartialEq, Eq, Structural)]
pub enum Action {
    /// Nothing: the machine can take its next step.
    Continue,
    /// The character is to be written out at once.
    Write(char),
    /// A character is to be read and handed to the next step.
    Read,
    /// The program has come to its end.
    Halt,
}

/// The state of an interpreter: its program, its tape, and where it stands in
/// both.
pub struct Machine {
    /// The instructions.
    pub program: Seq<Instruction>,
    /// The values of the cells.
    pub tape: Seq<int>,
    /// The cell that is current; it may lie outside of the tape.
    pub pointer: int,
    /// The instruction that comes next.
    pub pc: int,
}

/// A machine and what it answered.
pub struct Outcome {
    /// The machine after the step.
    pub machine: Machine,
    /// What the step asks for, or why it failed.
    pub result: Result<Action, BfError>,
}

/// The low eight bits of a character's code point.
pub open spec fn low_byte(c: char) -> int {
    (c as int) % 256
}

/// The low eight bits of a character's code point.
pub fn low_byte_of(c: char) -> (byte: u8)
    ensures
        byte as int == low_byte(c),
{
    let code: u32 = c as u32;
    (code % 256) as u8
}

impl Machine {
    /// The pointer stands on a cell of the tape.
    pub open spec fn in_tape(self) -> bool {
        0 <= self.pointer < self.tape.len()
    }

    /// The value of the current cell.
    pub open spec fn current(self) -> int {
        self.tape[self.pointer]
    }

    /// The program counter has passed the last instruction.
    pub open spec fn halted(self) -> bool {
        self.pc >= self.program.len()
    }

    /// What holds of the state of every interpreter with cells of type `T`:
    /// the brackets of its program know their partners, the program counter
    /// is at most one past the last instruction, every cell holds a value of
    /// `T`, and the lengths and the pointer are numbers that the machine's
    /// registers can hold.
    pub open spec fn well_formed<T: Cell>(self) -> bool {
        &&& linked(self.program)
        &&& self.program.len() <= usize::MAX
        &&& self.tape.len() <= usize::MAX
        &&& 0 <= self.pc <= self.program.len()
        &&& i128::MIN <= self.pointer <= i128::MAX
        &&& forall|i: int|
            0 <= i < self.tape.len() ==> T::lowest() <= #[trigger] self.tape[i] <= T::highest()
    }

    /// The machine with the program counter at `pc`.
    pub open spec fn at(self, pc: int) -> Machine {
        Machine { pc, ..self }
    }

    /// The machine with `value` in the current cell.
    pub open spec fn store(self, value: int) -> Machine {
        Machine { tape: self.tape.update(self.pointer, value), ..self }
    }

    /// The machine unchanged, with the error for a touch of the tape outside
    /// of it by the instruction that is next.
    pub open spec fn out_of_bounds(self) -> Outcome {
        Outcome {
            machine: self,
            result: Err(BfError::MemoryOutOfBounds { index: self.pc as usize }),
        }
    }

    /// The machine one instruction further, with nothing asked.
    pub open spec fn proceed(self) -> Outcome {
        Outcome { machine: self.at(self.pc + 1), result: Ok(Action::Continue) }
    }

    /// One step of a machine with cells of type `T`. `input` is the character
    /// that was read for it, if one was.
    ///
    /// A fault leaves the machine as it was. The pointer moves freely; only an
    /// instruction that reads or writes the current cell faults when the
    /// pointer is outside of the tape, or a move that would take the pointer
    /// out of the `i128` range.
    pub open spec fn step<T: Cell>(self, input: Option<char>) -> Outcome {
        if self.halted() {
            Outcome { machine: self, result: Ok(Action::Halt) }
        } else {
            match self.program[self.pc] {
                Instruction::PointerInc => if self.pointer < i128::MAX {
                    Machine { pointer: self.pointer + 1, ..self }.proceed()
                } else {
                    self.out_of_bounds()
                },
                Instruction::PointerDec => if self.pointer > i128::MIN {
                    Machine { pointer: self.pointer - 1, ..self }.proceed()
                } else {
                    self.out_of_bounds()
                },
                Instruction::CellInc => if self.in_tape() {
                    self.store(successor(self.current(), T::lowest(), T::highest())).proceed()
                } else {
                    self.out_of_bounds()
                },
                Instruction::CellDec => if self.in_tape() {
                    self.store(predecessor(self.current(), T::lowest(), T::highest())).proceed()
                } else {
                    self.out_of_bounds()
                },
                Instruction::Output => if self.in_tape() {
                    Outcome {
                        machine: self.at(self.pc + 1),
                        result: Ok(Action::Write((self.current() % 256) as char)),
                    }
                } else {
                    self.out_of_bounds()
                },
                Instruction::Input => match input {
                    None => Outcome { machine: self, result: Ok(Action::Read) },
                    Some(c) => if low_byte(c) > T::highest() {
                        Outcome {
                            machine: self,
                            result: Err(BfError::UnexpectedInput { byte: low_byte(c) as u8 }),
                        }
                    } else if self.in_tape() {
                        self.store(low_byte(c)).proceed()
                    } else {
                        self.out_of_bounds()
                    },
                },
                Instruction::LoopStart { target } => if !self.in_tape() {
                    self.out_of_bounds()
                } else if self.current() == 0 {
                    Outcome { machine: self.at(target + 1), result: Ok(Action::Continue) }
                } else {
                    self.proceed()
                },
                Instruction::LoopEnd { target } => Outcome {
                    machine: self.at(target as int),
                    result: Ok(Action::Continue),
                },
            }
        }
    }

    /// Steps of a machine with cells of type `T`, until one asks for
    /// something or fails, and `budget` steps at most. `input` goes to the
    /// first step. `Action::Continue` says that the budget is used up.
    pub open spec fn run<T: Cell>(self, input: Option<char>, budget: nat) -> Outcome
        decreases budget,
    {
        if budget == 0 {
            Outcome { machine: self, result: Ok(Action::Continue) }
        } else {
            let first = self.step::<T>(input);
            if first.result == Ok::<Action, BfError>(Action::Continue) {
                first.machine.run::<T>(None, (budget - 1) as nat)
            } else {
                first
            }
        }
    }
}

/// A step keeps a well-formed machine well formed, never changes the program
/// or the length of the tape, and where it fails it changes nothing at all.
pub proof fn lemma_step_preserves<T: Cell>(m: Machine, input: Option<char>)
    requires
        m.well_formed::<T>(),
    ensures
        m.step::<T>(input).machine.well_formed::<T>(),
        m.step::<T>(input).machine.program == m.program,
        m.step::<T>(input).machine.tape.len() == m.tape.len(),
        m.step::<T>(input).result is Err ==> m.step::<T>(input).machine == m,
{
    T::lemma_range();
    if !m.halted() {
        match m.program[m.pc] {
            Instruction::LoopStart { target } => {
                assert(is_pair(symbols(m.program), m.pc, target as int));
            },
            Instruction::LoopEnd { target } => {
                assert(is_pair(symbols(m.program), target as int, m.pc));
            },
            _ => {},
        }
    }
}

/// A run keeps a well-formed machine well formed, and never changes the
/// program or the length of the tape.
pub proof fn lemma_run_preserves<T: Cell>(m: Machine, input: Option<char>, budget: nat)
    requires
        m.well_formed::<T>(),
    ensures
        m.run::<T>(input, budget).machine.well_formed::<T>(),
        m.run::<T>(input, budget).machine.program == m.program,
        m.run::<T>(input, budget).machine.tape.len() == m.tape.len(),
    decreases budget,
{
    if budget > 0 {
        lemma_step_preserves::<T>(m, input);
        let first = m.step::<T>(input);
        if first.result == Ok::<Action, BfError>(Action::Continue) {
            lemma_run_preserves::<T>(first.machine, None, (budget - 1) as nat);
        }
    }
}

/// A run with a budget of `first + second` steps is a run with a budget of
/// `first` steps and, where that one has used up its budget, a run with a
/// budget of `second` steps behind it. An input needs a first step to go to.
pub proof fn lemma_run_splits<T: Cell>(m: Machine, input: Option<char>, first: nat, second: nat)
    requires
        first > 0 || input is None,
    ensures
        m.run::<T>(input, first + second) == if m.run::<T>(input, first).result == Ok::<
            Action,
            BfError,
        >(Action::Continue) {
            m.run::<T>(input, first).machine.run::<T>(None, second)
        } else {
            m.run::<T>(input, first)
        },
    decreases first,
{
    let head = m.step::<T>(input);
    if first > 0 && head.result == Ok::<Action, BfError>(Action::Continue) {
        lemma_run_splits::<T>(head.machine, None, (first - 1) as nat, second);
    }
}

/// A run of `times` instructions `+`, met with the pointer on the tape, adds
/// `times` to the current cell, carried around the ends of the cell type's
/// range, and leaves the machine behind the last of them.
pub proof fn lemma_run_of_increments<T: Cell>(m: Machine, times: nat)
    requires
        0 <= m.pc,
        m.pc + times <= m.program.len(),
        forall|i: int| m.pc <= i < m.pc + times ==> m.program[i] == Instruction::CellInc,
        m.in_tape(),
        T::lowest() <= m.current() <= T::highest(),
    ensures
        m.run::<T>(None, times) == (Outcome {
            machine: m.store(wrap_into(m.current() + times, T::lowest(), T::highest())).at(
                m.pc + times,
            ),
            result: Ok(Action::Continue),
        }),
    decreases times,
{
    T::lemma_range();
    let low = T::lowest();
    let high = T::highest();
    if times == 0 {
        lemma_wrap_in_range(m.current(), low, high);
        assert(m.store(m.current()).tape =~= m.tape);
    } else {
        let next = m.step::<T>(None).machine;
        lemma_step_wraps(m.current(), low, high);
        lemma_wrap_in_range(m.current() + 1, low, high);
        assert(m.program[m.pc] == Instruction::CellInc);
        lemma_run_of_increments::<T>(next, (times - 1) as nat);
        lemma_wrap_of_sum(m.current() + 1, times - 1, low, high);
        assert(next.store(wrap_into(next.current() + (times - 1), low, high)).tape =~= m.store(
            wrap_into(m.current() + times, low, high),
        ).tape);
    }
}

/// In a program whose brackets know their partners, an opening bracket with
/// a closing one right behind it forms a loop with that bracket.
pub proof fn lemma_empty_loop_targets(program: Seq<Instruction>, at: int)
    requires
        linked(program),
        0 <= at,
        at + 1 < program.len(),
        program[at] is LoopStart,
        program[at + 1] is LoopEnd,
    ensures
        program[at] == (Instruction::LoopStart { target: (at + 1) as usize }),
        program[at + 1] == (Instruction::LoopEnd { target: at as usize }),
        is_pair(symbols(program), at, at + 1),
{
    let c = symbols(program);
    let close = program[at]->LoopStart_target as int;
    let open = program[at + 1]->LoopEnd_target as int;
    assert(is_pair(c, at, close));
    assert(is_pair(c, open, at + 1));
    assert(c[at] == SYM_LOOP_START);
    assert(c[at + 1] == SYM_LOOP_END);
    assert(depth(c, at + 1) == depth(c, at) + 1);
    assert(depth(c, at + 2) == depth(c, at));
    if close > at + 1 {
        assert(depth(c, at + 2) > depth(c, at));
    }
    lemma_open_unique(c, at, open, at + 1);
}

/// A loop without a body, met with the current cell at zero, is passed in
/// one step: the machine goes on behind the closing bracket, and nothing
/// else about it changes.
pub proof fn lemma_empty_loop_is_skipped<T: Cell>(m: Machine, input: Option<char>)
    requires
        m.well_formed::<T>(),
        m.pc + 1 < m.program.len(),
        m.program[m.pc] is LoopStart,
        m.program[m.pc + 1] is LoopEnd,
        m.in_tape(),
        m.current() == 0,
    ensures
        m.step::<T>(input) == (Outcome { machine: m.at(m.pc + 2), result: Ok(Action::Continue) }),
{
    lemma_empty_loop_targets(m.program, m.pc);
}

/// A loop without a body, met with the current cell not at zero, is never
/// left: two steps take the machine back to where it was, so that after any
/// number of steps it stands on one of the two brackets, unchanged
/// otherwise, and has asked for nothing.
pub proof fn lemma_empty_loop_spins<T: Cell>(m: Machine, budget: nat)
    requires
        m.well_formed::<T>(),
        m.pc + 1 < m.program.len(),
        m.program[m.pc] is LoopStart,
        m.program[m.pc + 1] is LoopEnd,
        m.in_tape(),
        m.current() != 0,
    ensures
        m.run::<T>(None, budget) == (Outcome {
            machine: if budget % 2 == 0 {
                m
            } else {
                m.at(m.pc + 1)
            },
            result: Ok(Action::Continue),
        }),
    decreases budget,
{
    lemma_empty_loop_targets(m.program, m.pc);
    if budget >= 2 {
        let inside = m.at(m.pc + 1);
        assert(m.step::<T>(None) == (Outcome { machine: inside, result: Ok(Action::Continue) }));
        assert(inside.step::<T>(None) == (Outcome { machine: m, result: Ok(Action::Continue) }));
        assert(m.run::<T>(None, budget) == inside.run::<T>(None, (budget - 1) as nat));
        assert(inside.run::<T>(None, (budget - 1) as nat) == m.run::<T>(None, (budget - 2) as nat));
        lemma_empty_loop_spins::<T>(m, (budget - 2) as nat);
    } else if budget == 1 {
        assert(m.at(m.pc + 1).run::<T>(None, 0) == (Outcome {
            machine: m.at(m.pc + 1),
            result: Ok(Action::Continue),
        }));
    }
}

/// Whether an instruction reads or writes the current cell.
pub open spec fn touches_tape(instruction: Instruction) -> bool {
    !(instruction is PointerInc || instruction is PointerDec || instruction is LoopEnd)
}

/// With the pointer outside of the tape, below its first cell or behind its
/// last, an instruction that reads or writes the current cell fails with the
/// position of that instruction, and the machine stays as it was. For `,`
/// this holds once a character is there that the cell type can hold.
pub proof fn lemma_touch_outside_faults<T: Cell>(m: Machine, input: Option<char>)
    requires
        0 <= m.pc < m.program.len(),
        !m.in_tape(),
        touches_tape(m.program[m.pc]),
        m.program[m.pc] is Input ==> input is Some && low_byte(input->0) <= T::highest(),
    ensures
        m.step::<T>(input) == (Outcome {
            machine: m,
            result: Err(BfError::MemoryOutOfBounds { index: m.pc as usize }),
        }),
{
}

/// A move of the pointer never touches the tape: short of the ends of the
/// `i128` range it succeeds wherever the pointer stands, and changes nothing
/// but the pointer and the program counter.
pub proof fn lemma_move_is_free<T: Cell>(m: Machine, input: Option<char>)
    requires
        0 <= m.pc < m.program.len(),
        m.program[m.pc] is PointerInc || m.program[m.pc] is PointerDec,
        i128::MIN < m.pointer < i128::MAX,
    ensures
        m.step::<T>(input) == (Outcome {
            machine: Machine {
                pointer: if m.program[m.pc] is PointerInc {
                    m.pointer + 1
                } else {
                    m.pointer - 1
                },
                pc: m.pc + 1,
                ..m
            },
            result: Ok(Action::Continue),
        }),
{
}

} // verus!
