//! Instructions, and what it means for a command sequence to be assembled:
//! which brackets belong together, and which bracket is at fault when some
//! do not.

use crate::error::BfError;
use vstd::prelude::*;

verus! {

/// One operation of an assembled program.
#[derive(Debug, Clone, Copy, PartialEq, Eq, Structural)]
pub enum Instruction {
    /// `>`: move the pointer one cell up.
    PointerInc,
    /// `<`: move the pointer one cell down.
    PointerDec,
    /// `+`: add one to the current cell.
    CellInc,
    /// `-`: take one from the current cell.
    CellDec,
    /// `.`: write the current cell.
    Output,
    /// `,`: read into the current cell.
    Input,
    /// `[`: where the current cell is zero, go on behind the instruction at
    /// `target`, the closing bracket of this loop.
    LoopStart { target: usize },
    /// `]`: go back to the instruction at `target`, the opening bracket of
    /// this loop.
    LoopEnd { target: usize },
}

/// The byte `>`.
pub const SYM_POINTER_INC: u8 = 62;

/// The byte `<`.
pub const SYM_POINTER_DEC: u8 = 60;

/// The byte `+`.
pub const SYM_CELL_INC: u8 = 43;

/// The byte `-`.
pub const SYM_CELL_DEC: u8 = 45;

/// The byte `.`.
pub const SYM_OUTPUT: u8 = 46;

/// The byte `,`.
pub const SYM_INPUT: u8 = 44;

/// The byte `[`.
pub const SYM_LOOP_START: u8 = 91;

/// The byte `]`.
pub const SYM_LOOP_END: u8 = 93;

/// Whether `byte` is one of the eight command symbols.
pub open spec fn is_command(byte: u8) -> bool {
    byte == SYM_POINTER_INC || byte == SYM_POINTER_DEC || byte == SYM_CELL_INC || byte == SYM_CELL_DEC
        || byte == SYM_OUTPUT || byte == SYM_INPUT || byte == SYM_LOOP_START || byte == SYM_LOOP_END
}

/// Every element of `c` is a command symbol.
pub open spec fn all_commands(c: Seq<u8>) -> bool {
    forall|at: int| 0 <= at < c.len() ==> is_command(#[trigger] c[at])
}

/// `is_command`, as a value to filter with.
pub open spec fn command_filter() -> spec_fn(u8) -> bool {
    |byte: u8| is_command(byte)
}

/// The command symbols of a source text, in their order; every other byte is
/// left out.
pub open spec fn commands(source: Seq<u8>) -> Seq<u8> {
    source.filter(command_filter())
}

/// How many loops are open in front of position `at`: the opening brackets
/// before it less the closing ones.
pub open spec fn depth(c: Seq<u8>, at: int) -> int
    decreases at,
{
    if at <= 0 {
        0
    } else if c[at - 1] == SYM_LOOP_START {
        depth(c, at - 1) + 1
    } else if c[at - 1] == SYM_LOOP_END {
        depth(c, at - 1) - 1
    } else {
        depth(c, at - 1)
    }
}

/// Up to position `upto`, no closing bracket comes without a loop to close.
pub open spec fn no_stray_close(c: Seq<u8>, upto: int) -> bool {
    forall|k: int| 0 <= k <= upto ==> depth(c, k) >= 0
}

/// Every bracket of `c` has a partner.
pub open spec fn balanced(c: Seq<u8>) -> bool {
    no_stray_close(c, c.len() as int) && depth(c, c.len() as int) == 0
}

/// The brackets at `open` and `close` enclose one loop: between them the
/// depth stays above the depth in front of `open`, and behind `close` it is
/// back there.
pub open spec fn is_pair(c: Seq<u8>, open: int, close: int) -> bool {
    &&& 0 <= open < close < c.len()
    &&& c[open] == SYM_LOOP_START
    &&& c[close] == SYM_LOOP_END
    &&& depth(c, close + 1) == depth(c, open)
    &&& forall|k: int| open < k <= close ==> depth(c, k) > depth(c, open)
}

/// The closing bracket at `at` is the first that has no loop to close.
pub open spec fn stray_close(c: Seq<u8>, at: int) -> bool {
    &&& 0 <= at < c.len()
    &&& c[at] == SYM_LOOP_END
    &&& depth(c, at) == 0
    &&& no_stray_close(c, at)
}

/// The opening bracket at `at` is never closed.
pub open spec fn open_without_close(c: Seq<u8>, at: int) -> bool {
    &&& 0 <= at < c.len()
    &&& c[at] == SYM_LOOP_START
    &&& forall|k: int| at < k <= c.len() ==> depth(c, k) > depth(c, at)
}

/// The opening bracket at `at` is the last one that is never closed.
pub open spec fn innermost_open(c: Seq<u8>, at: int) -> bool {
    &&& open_without_close(c, at)
    &&& forall|j: int| at < j < c.len() ==> !open_without_close(c, j)
}

/// The position of the bracket that belongs to the bracket at `at`.
pub open spec fn partner(c: Seq<u8>, at: int) -> int {
    if c[at] == SYM_LOOP_START {
        choose|close: int| is_pair(c, at, close)
    } else {
        choose|open: int| is_pair(c, open, at)
    }
}

/// The instruction that the command at `at` stands for; `c` is to hold
/// command symbols only.
pub open spec fn instruction_at(c: Seq<u8>, at: int) -> Instruction {
    let symbol = c[at];
    if symbol == SYM_POINTER_INC {
        Instruction::PointerInc
    } else if symbol == SYM_POINTER_DEC {
        Instruction::PointerDec
    } else if symbol == SYM_CELL_INC {
        Instruction::CellInc
    } else if symbol == SYM_CELL_DEC {
        Instruction::CellDec
    } else if symbol == SYM_OUTPUT {
        Instruction::Output
    } else if symbol == SYM_INPUT {
        Instruction::Input
    } else if symbol == SYM_LOOP_START {
        Instruction::LoopStart { target: partner(c, at) as usize }
    } else {
        Instruction::LoopEnd { target: partner(c, at) as usize }
    }
}

/// The bracket that an unbalanced command sequence is rejected for: the first
/// closing bracket with no loop to close or, where there is none, the last
/// opening bracket that is never closed.
pub open spec fn fault(c: Seq<u8>) -> int {
    if exists|at: int| stray_close(c, at) {
        choose|at: int| stray_close(c, at)
    } else {
        choose|at: int| innermost_open(c, at)
    }
}

/// What assembling the command sequence `c` gives: where every bracket has a
/// partner, one instruction for each command, every bracket with the position
/// of its partner; else the bracket at fault.
pub open spec fn assemble(c: Seq<u8>) -> Result<Seq<Instruction>, BfError> {
    if balanced(c) {
        Ok(Seq::new(c.len(), |at: int| instruction_at(c, at)))
    } else {
        Err(BfError::NoneMatchingBracket { index: fault(c) as usize })
    }
}

/// The command symbol that an instruction stands for.
pub open spec fn symbol_of(instruction: Instruction) -> u8 {
    match instruction {
        Instruction::PointerInc => SYM_POINTER_INC,
        Instruction::PointerDec => SYM_POINTER_DEC,
        Instruction::CellInc => SYM_CELL_INC,
        Instruction::CellDec => SYM_CELL_DEC,
        Instruction::Output => SYM_OUTPUT,
        Instruction::Input => SYM_INPUT,
        Instruction::LoopStart { .. } => SYM_LOOP_START,
        Instruction::LoopEnd { .. } => SYM_LOOP_END,
    }
}

/// The command sequence that a program stands for.
pub open spec fn symbols(program: Seq<Instruction>) -> Seq<u8> {
    program.map_values(|instruction: Instruction| symbol_of(instruction))
}

/// Every bracket of the program holds the position of its partner.
pub open spec fn linked(program: Seq<Instruction>) -> bool {
    forall|at: int|
        0 <= at < program.len() ==> match #[trigger] program[at] {
            Instruction::LoopStart { target } => is_pair(symbols(program), at, target as int),
            Instruction::LoopEnd { target } => is_pair(symbols(program), target as int, at),
            _ => true,
        }
}

/// An opening bracket has at most one closing partner.
pub proof fn lemma_close_unique(c: Seq<u8>, open: int, close: int, other: int)
    requires
        is_pair(c, open, close),
        is_pair(c, open, other),
    ensures
        close == other,
{
    if close < other {
        assert(depth(c, close + 1) > depth(c, open));
    } else if other < close {
        assert(depth(c, other + 1) > depth(c, open));
    }
}

/// A closing bracket has at most one opening partner.
pub proof fn lemma_open_unique(c: Seq<u8>, open: int, other: int, close: int)
    requires
        is_pair(c, open, close),
        is_pair(c, other, close),
    ensures
        open == other,
{
    if open < other {
        assert(depth(c, other) > depth(c, open));
    } else if other < open {
        assert(depth(c, open) > depth(c, other));
    }
}

/// At most one closing bracket is the first stray one.
pub proof fn lemma_stray_close_unique(c: Seq<u8>, at: int, other: int)
    requires
        stray_close(c, at),
        stray_close(c, other),
    ensures
        at == other,
{
    if at < other {
        assert(depth(c, at + 1) >= 0);
    } else if other < at {
        assert(depth(c, other + 1) >= 0);
    }
}

/// At most one opening bracket is the last that is never closed.
pub proof fn lemma_innermost_open_unique(c: Seq<u8>, at: int, other: int)
    requires
        innermost_open(c, at),
        innermost_open(c, other),
    ensures
        at == other,
{
}

/// The depth in front of a position depends on the commands in front of it
/// alone.
pub proof fn lemma_depth_of_prefix(c: Seq<u8>, d: Seq<u8>, at: int)
    requires
        0 <= at <= c.len(),
        at <= d.len(),
        c.take(at) == d.take(at),
    ensures
        depth(c, at) == depth(d, at),
    decreases at,
{
    if at > 0 {
        assert(c.take(at - 1) =~= c.take(at).take(at - 1));
        assert(d.take(at - 1) =~= d.take(at).take(at - 1));
        assert(c[at - 1] == c.take(at)[at - 1]);
        assert(d[at - 1] == d.take(at)[at - 1]);
        lemma_depth_of_prefix(c, d, at - 1);
    }
}

/// Behind a first part, the depth is the depth at the end of that part and
/// the depth within the rest.
pub proof fn lemma_depth_of_concat(c: Seq<u8>, d: Seq<u8>, at: int)
    requires
        0 <= at <= d.len(),
    ensures
        depth(c + d, c.len() + at) == depth(c, c.len() as int) + depth(d, at),
    decreases at,
{
    if at == 0 {
        assert((c + d).take(c.len() as int) =~= c.take(c.len() as int));
        lemma_depth_of_prefix(c + d, c, c.len() as int);
    } else {
        assert((c + d)[c.len() + at - 1] == d[at - 1]);
        lemma_depth_of_concat(c, d, at - 1);
    }
}

/// From `from` on, where the depth has stayed above the depth in front of
/// `open`, the closing partner of `open` is found.
proof fn lemma_close_from(c: Seq<u8>, open: int, from: int) -> (close: int)
    requires
        0 <= open < from <= c.len(),
        c[open] == SYM_LOOP_START,
        forall|k: int| open < k <= from ==> depth(c, k) > depth(c, open),
        depth(c, c.len() as int) <= depth(c, open),
    ensures
        is_pair(c, open, close),
    decreases c.len() - from,
{
    assert(depth(c, from) > depth(c, open));
    if depth(c, from + 1) == depth(c, open) {
        from
    } else {
        lemma_close_from(c, open, from + 1)
    }
}

/// From `from` back, where the depth has stayed above the depth behind
/// `close`, the opening partner of `close` is found.
proof fn lemma_open_from(c: Seq<u8>, from: int, close: int) -> (open: int)
    requires
        0 <= from <= close < c.len(),
        c[close] == SYM_LOOP_END,
        forall|k: int| from < k <= close ==> #[trigger] depth(c, k) > depth(c, close + 1),
        depth(c, close + 1) >= 0,
    ensures
        is_pair(c, open, close),
    decreases from,
{
    if from < close {
        assert(depth(c, from + 1) > depth(c, close + 1));
    }
    if depth(c, from) == depth(c, close + 1) {
        from
    } else {
        assert(depth(c, 0) == 0);
        lemma_open_from(c, from - 1, close)
    }
}

/// Where every bracket has a partner, the opening bracket at `open` has its
/// closing one.
pub proof fn lemma_close_exists(c: Seq<u8>, open: int) -> (close: int)
    requires
        balanced(c),
        0 <= open < c.len(),
        c[open] == SYM_LOOP_START,
    ensures
        is_pair(c, open, close),
        partner(c, open) == close,
{
    assert(depth(c, open) >= 0);
    let close = lemma_close_from(c, open, open + 1);
    lemma_close_unique(c, open, close, partner(c, open));
    close
}

/// Where no closing bracket is a stray one, the closing bracket at `close`
/// has its opening one.
pub proof fn lemma_open_exists(c: Seq<u8>, close: int) -> (open: int)
    requires
        no_stray_close(c, c.len() as int),
        0 <= close < c.len(),
        c[close] == SYM_LOOP_END,
    ensures
        is_pair(c, open, close),
        partner(c, close) == open,
{
    assert(depth(c, close + 1) >= 0);
    let open = lemma_open_from(c, close, close);
    lemma_open_unique(c, open, partner(c, close), close);
    open
}

/// A balanced command sequence assembles: each command becomes its
/// instruction, and each bracket holds the position of the one bracket that
/// is its partner.
pub proof fn lemma_balanced_assembles(c: Seq<u8>) -> (program: Seq<Instruction>)
    requires
        balanced(c),
        all_commands(c),
        c.len() <= usize::MAX,
    ensures
        assemble(c) == Ok::<Seq<Instruction>, BfError>(program),
        symbols(program) == c,
        linked(program),
        forall|open: int, close: int| #[trigger]
            is_pair(c, open, close) ==> program[open] == (Instruction::LoopStart {
                target: close as usize,
            }) && program[close] == (Instruction::LoopEnd { target: open as usize }),
{
    let program = Seq::new(c.len(), |at: int| instruction_at(c, at));
    assert forall|at: int| 0 <= at < c.len() implies symbol_of(#[trigger] program[at]) == c[at] by {
        assert(is_command(c[at]));
    }
    assert(symbols(program) =~= c);
    assert forall|at: int| 0 <= at < program.len() implies match #[trigger] program[at] {
        Instruction::LoopStart { target } => is_pair(c, at, target as int),
        Instruction::LoopEnd { target } => is_pair(c, target as int, at),
        _ => true,
    } by {
        assert(is_command(c[at]));
        if c[at] == SYM_LOOP_START {
            lemma_close_exists(c, at);
        } else if c[at] == SYM_LOOP_END {
            lemma_open_exists(c, at);
        }
    }
    assert forall|open: int, close: int| #[trigger] is_pair(c, open, close) implies program[open] == (
    Instruction::LoopStart { target: close as usize }) && program[close] == (Instruction::LoopEnd {
        target: open as usize,
    }) by {
        let found_close = lemma_close_exists(c, open);
        let found_open = lemma_open_exists(c, close);
        lemma_close_unique(c, open, close, found_close);
        lemma_open_unique(c, open, found_open, close);
    }
    program
}

/// A program that a sequence of commands assembles to stands for that
/// sequence, and its brackets hold the positions of their partners.
pub proof fn lemma_assembled_is_linked(c: Seq<u8>, program: Seq<Instruction>)
    requires
        all_commands(c),
        c.len() <= usize::MAX,
        assemble(c) == Ok::<Seq<Instruction>, BfError>(program),
    ensures
        balanced(c),
        symbols(program) == c,
        linked(program),
{
    lemma_balanced_assembles(c);
}

/// In a program whose brackets know their partners, the partner of a bracket
/// is a bracket of the other kind that holds the position of the first: every
/// opening bracket has its one closing bracket behind it, and the reverse.
pub proof fn lemma_partners_point_back(program: Seq<Instruction>, at: int)
    requires
        linked(program),
        0 <= at < program.len(),
    ensures
        program[at] matches Instruction::LoopStart { target } ==> at < target < program.len()
            && program[target as int] == (Instruction::LoopEnd { target: at as usize }),
        program[at] matches Instruction::LoopEnd { target } ==> target < at && program[target as int]
            == (Instruction::LoopStart { target: at as usize }),
{
    let c = symbols(program);
    match program[at] {
        Instruction::LoopStart { target } => {
            assert(is_pair(c, at, target as int));
            assert(c[target as int] == SYM_LOOP_END);
            let back = program[target as int]->LoopEnd_target;
            assert(is_pair(c, back as int, target as int));
            lemma_open_unique(c, at, back as int, target as int);
        },
        Instruction::LoopEnd { target } => {
            assert(is_pair(c, target as int, at));
            assert(c[target as int] == SYM_LOOP_START);
            let forth = program[target as int]->LoopStart_target;
            assert(is_pair(c, target as int, forth as int));
            lemma_close_unique(c, target as int, at, forth as int);
        },
        _ => {},
    }
}

/// Where the depth falls below zero by `upto`, some closing bracket is the
/// first stray one.
proof fn lemma_first_stray(c: Seq<u8>, upto: int) -> (at: int)
    requires
        0 <= upto <= c.len(),
        !no_stray_close(c, upto),
    ensures
        stray_close(c, at),
    decreases upto,
{
    if upto == 0 {
        assert(depth(c, 0) == 0);
        assert(false);
        0
    } else if no_stray_close(c, upto - 1) {
        assert(depth(c, upto) < 0);
        assert(depth(c, upto - 1) >= 0);
        upto - 1
    } else {
        lemma_first_stray(c, upto - 1)
    }
}

/// Where no closing bracket is a stray one, the depth at the end is above
/// zero, and from `upto` on the depth is nowhere below the depth at the end,
/// some opening bracket in front of `upto` is the last that is never closed.
proof fn lemma_last_open(c: Seq<u8>, upto: int) -> (at: int)
    requires
        0 <= upto <= c.len(),
        no_stray_close(c, c.len() as int),
        depth(c, c.len() as int) > 0,
        forall|k: int| upto <= k <= c.len() ==> #[trigger] depth(c, k) >= depth(c, c.len() as int),
    ensures
        innermost_open(c, at),
        at < upto,
    decreases upto,
{
    let end = depth(c, c.len() as int);
    if upto == 0 {
        assert(depth(c, 0) == 0);
        assert(false);
        0
    } else if depth(c, upto - 1) < end {
        let at = upto - 1;
        assert(depth(c, at + 1) >= end);
        assert(c[at] == SYM_LOOP_START);
        assert(open_without_close(c, at));
        assert forall|j: int| at < j < c.len() implies !open_without_close(c, j) by {
            if open_without_close(c, j) {
                assert(depth(c, c.len() as int) > depth(c, j));
            }
        }
        at
    } else {
        lemma_last_open(c, upto - 1)
    }
}

/// An unbalanced command sequence has a bracket at fault: a first stray
/// closing bracket or, without one, a last opening bracket that is never
/// closed.
pub proof fn lemma_unbalanced_has_fault(c: Seq<u8>)
    requires
        !balanced(c),
    ensures
        stray_close(c, fault(c)) || (no_stray_close(c, c.len() as int) && innermost_open(
            c,
            fault(c),
        )),
{
    if no_stray_close(c, c.len() as int) {
        assert forall|at: int| !stray_close(c, at) by {
            if 0 <= at < c.len() {
                assert(depth(c, at + 1) >= 0);
            }
        }
        let at = lemma_last_open(c, c.len() as int);
        assert(innermost_open(c, at));
    } else {
        let at = lemma_first_stray(c, c.len() as int);
        assert(stray_close(c, at));
    }
}

} // verus!
