//! The interpreter: a program, a tape of cells, and the two positions.

use crate::cell::{lemma_step_wraps, Cell};
use crate::compiler::{compile, lemma_commands_are_commands};
pub use crate::error::BfError;
use crate::machine::{low_byte_of, Action, Machine, Outcome};
use crate::program::{assemble, commands, lemma_assembled_is_linked, linked, Instruction};
use vstd::prelude::*;

verus! {

/// An interpreter with cells of type `T`.
pub struct Interpreter<T> {
    program: Vec<Instruction>,
    cells: Vec<T>,
    pointer: i128,
    pc: usize,
}

impl<T: Cell> View for Interpreter<T> {
    type V = Machine;

    closed spec fn view(&self) -> Machine {
        Machine {
            program: self.program@,
            tape: self.cells@.map_values(|cell: T| cell.value()),
            pointer: self.pointer as int,
            pc: self.pc as int,
        }
    }
}

impl<T> Interpreter<T> {
    /// The brackets of the program hold the positions of their partners, and
    /// the program counter is at most one past the last instruction.
    #[verifier::type_invariant]
    spec fn inv(self) -> bool {
        linked(self.program@) && self.pc <= self.program.len()
    }
}

impl<T: Cell> Interpreter<T> {
    /// An interpreter without a program, with `cells` cells that all hold
    /// zero and the pointer on the first of them.
    pub fn new(cells: usize) -> (interpreter: Self)
        ensures
            interpreter@ == (Machine {
                program: Seq::empty(),
                tape: Seq::new(cells as nat, |i: int| 0int),
                pointer: 0,
                pc: 0,
            }),
            interpreter@.well_formed::<T>(),
    {
        let mut tape: Vec<T> = Vec::new();
        while tape.len() < cells
            invariant
                tape.len() <= cells,
                forall|i: int| 0 <= i < tape.len() ==> (#[trigger] tape@[i]).value() == 0,
            decreases cells - tape.len(),
        {
            tape.push(T::zero());
        }
        let interpreter = Interpreter { program: Vec::new(), cells: tape, pointer: 0, pc: 0 };
        proof {
            assert(interpreter@.tape =~= Seq::new(cells as nat, |i: int| 0int));
            interpreter.lemma_well_formed();
        }
        interpreter
    }

    /// Assembles `source` and takes the program in, with the program counter
    /// at its first instruction; the tape and the pointer stay as they are.
    /// A source that does not assemble leaves the interpreter unchanged.
    pub fn compile(&mut self, source: &[u8]) -> (result: Result<(), BfError>)
        ensures
            match assemble(commands(source@)) {
                Ok(program) => result == Ok::<(), BfError>(()) && final(self)@ == (Machine {
                    program,
                    pc: 0,
                    ..old(self)@
                }),
                Err(error) => result == Err::<(), BfError>(error) && final(self)@ == old(self)@,
            },
            final(self)@.well_formed::<T>(),
    {
        proof {
            use_type_invariant(&*self);
            self.lemma_well_formed();
            lemma_commands_are_commands(source@);
        }
        let program = compile(source)?;
        proof {
            assert(program@.len() == program.len());
            lemma_assembled_is_linked(commands(source@), program@);
        }
        self.pc = 0;
        self.program = program;
        proof {
            use_type_invariant(&*self);
            self.lemma_well_formed();
        }
        Ok(())
    }

    /// Takes one step: carries out the instruction that is next. `input` is
    /// the character that was read after the step before asked for one; it is
    /// used by `,` alone.
    pub fn step(&mut self, input: Option<char>) -> (result: Result<Action, BfError>)
        ensures
            (Outcome { machine: final(self)@, result }) == old(self)@.step::<T>(input),
            final(self)@.well_formed::<T>(),
    {
        proof {
            use_type_invariant(&*self);
            self.lemma_well_formed();
        }
        if self.pc >= self.program.len() {
            return Ok(Action::Halt);
        }
        let at = self.pc;
        let result = match self.program[at] {
            Instruction::PointerInc => {
                if self.pointer == i128::MAX {
                    return Err(BfError::MemoryOutOfBounds { index: at });
                }
                self.pointer = self.pointer + 1;
                self.pc = at + 1;
                Ok(Action::Continue)
            },
            Instruction::PointerDec => {
                if self.pointer == i128::MIN {
                    return Err(BfError::MemoryOutOfBounds { index: at });
                }
                self.pointer = self.pointer - 1;
                self.pc = at + 1;
                Ok(Action::Continue)
            },
            Instruction::CellInc => {
                let cell = self.get_cell_mut(at)?;
                proof {
                    lemma_step_wraps(cell.value(), T::lowest(), T::highest());
                }
                *cell = cell.wrapping_add(T::one());
                self.pc = at + 1;
                Ok(Action::Continue)
            },
            Instruction::CellDec => {
                let cell = self.get_cell_mut(at)?;
                proof {
                    lemma_step_wraps(cell.value(), T::lowest(), T::highest());
                }
                *cell = cell.wrapping_sub(T::one());
                self.pc = at + 1;
                Ok(Action::Continue)
            },
            Instruction::Output => {
                let byte = self.get_cell(at)?.to_byte();
                self.pc = at + 1;
                Ok(Action::Write(byte as char))
            },
            Instruction::Input => match input {
                None => Ok(Action::Read),
                Some(c) => {
                    let byte = low_byte_of(c);
                    match T::from_byte(byte) {
                        None => Err(BfError::UnexpectedInput { byte }),
                        Some(value) => {
                            *self.get_cell_mut(at)? = value;
                            self.pc = at + 1;
                            Ok(Action::Continue)
                        },
                    }
                },
            },
            Instruction::LoopStart { target } => {
                if self.get_cell(at)?.is_zero() {
                    self.pc = target + 1;
                } else {
                    self.pc = at + 1;
                }
                Ok(Action::Continue)
            },
            Instruction::LoopEnd { target } => {
                self.pc = target;
                Ok(Action::Continue)
            },
        };
        proof {
            use_type_invariant(&*self);
            self.lemma_well_formed();
        }
        result
    }

    /// Takes steps until one asks for something or fails, and `budget` steps
    /// at most. `input` is handed to the first step. `Action::Continue` says
    /// that the budget is used up and nothing is asked.
    pub fn interpret(&mut self, input: Option<char>, budget: usize) -> (result: Result<
        Action,
        BfError,
    >)
        ensures
            (Outcome { machine: final(self)@, result }) == old(self)@.run::<T>(input, budget as nat),
            final(self)@.well_formed::<T>(),
    {
        proof {
            use_type_invariant(&*self);
            self.lemma_well_formed();
        }
        let mut next = input;
        let mut left = budget;
        while left > 0
            invariant
                self@.run::<T>(next, left as nat) == old(self)@.run::<T>(input, budget as nat),
                self@.well_formed::<T>(),
            decreases left,
        {
            let ghost before = self@;
            let result = self.step(next);
            assert(before.run::<T>(next, left as nat) == if result == Ok::<Action, BfError>(
                Action::Continue,
            ) {
                self@.run::<T>(None, (left - 1) as nat)
            } else {
                before.step::<T>(next)
            });
            match result {
                Ok(Action::Continue) => {},
                _ => {
                    return result;
                },
            }
            next = None;
            left = left - 1;
        }
        Ok(Action::Continue)
    }

    /// Assembles `source`, takes the program in and runs it from its first
    /// instruction, as `interpret` does, until a step asks for something or
    /// fails or `budget` steps are taken. A source that does not assemble
    /// leaves the interpreter unchanged.
    pub fn run(&mut self, source: &[u8], budget: usize) -> (result: Result<Action, BfError>)
        ensures
            match assemble(commands(source@)) {
                Ok(program) => (Outcome { machine: final(self)@, result }) == (Machine {
                    program,
                    pc: 0,
                    ..old(self)@
                }).run::<T>(None, budget as nat),
                Err(error) => result == Err::<Action, BfError>(error) && final(self)@ == old(self)@,
            },
            final(self)@.well_formed::<T>(),
    {
        self.compile(source)?;
        self.interpret(None, budget)
    }

    /// The position of the pointer: the index of the current cell, where it
    /// lies within the tape.
    pub fn pointer(&self) -> (pointer: i128)
        ensures
            pointer == self@.pointer,
    {
        self.pointer
    }

    /// The position of the instruction that is next.
    pub fn pc(&self) -> (pc: usize)
        ensures
            pc == self@.pc,
    {
        self.pc
    }

    /// The cells of the tape.
    pub fn cells(&self) -> (cells: &[T])
        ensures
            cells@.map_values(|cell: T| cell.value()) == self@.tape,
    {
        self.cells.as_slice()
    }

    /// The instructions of the program.
    pub fn program(&self) -> (program: &[Instruction])
        ensures
            program@ == self@.program,
    {
        self.program.as_slice()
    }

    /// The current cell, or the fault of the instruction at `index`.
    fn get_cell(&self, index: usize) -> (cell: Result<&T, BfError>)
        ensures
            match cell {
                Ok(c) => self@.in_tape() && c.value() == self@.current(),
                Err(error) => !self@.in_tape() && error == (BfError::MemoryOutOfBounds { index }),
            },
    {
        if 0 <= self.pointer && self.pointer < self.cells.len() as i128 {
            Ok(&self.cells[self.pointer as usize])
        } else {
            Err(BfError::MemoryOutOfBounds { index })
        }
    }

    /// The current cell, to be written, or the fault of the instruction at
    /// `index`.
    fn get_cell_mut(&mut self, index: usize) -> (cell: Result<&mut T, BfError>)
        ensures
            match cell {
                Ok(c) => old(self)@.in_tape() && c.value() == old(self)@.current()
                    && final(self)@ =~= old(self)@.store(final(c).value()),
                Err(error) => !old(self)@.in_tape() && error == (BfError::MemoryOutOfBounds {
                    index,
                }) && final(self)@ == old(self)@,
            },
    {
        proof {
            use_type_invariant(&*self);
        }
        if 0 <= self.pointer && self.pointer < self.cells.len() as i128 {
            let at = self.pointer as usize;
            let ghost before = self.cells@;
            let cell = &mut self.cells[at];
            proof {
                let after = before.update(at as int, *final(cell));
                assert(after.map_values(|cell: T| cell.value()) =~= before.map_values(
                    |cell: T| cell.value(),
                ).update(at as int, final(cell).value()));
            }
            Ok(cell)
        } else {
            Err(BfError::MemoryOutOfBounds { index })
        }
    }

    /// What the type keeps true of every interpreter makes its state well
    /// formed.
    proof fn lemma_well_formed(&self)
        requires
            self.inv(),
        ensures
            self@.well_formed::<T>(),
    {
        assert(self@.program.len() == self.program.len());
        assert(self@.tape.len() == self.cells.len());
        assert forall|i: int| 0 <= i < self@.tape.len() implies T::lowest()
            <= #[trigger] self@.tape[i] <= T::highest() by {
            self.cells@[i].lemma_value_in_range();
        }
    }
}

} // verus!
