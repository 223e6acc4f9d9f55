//! Assembling a source text into a program.

use crate::error::BfError;
use crate::program::{
    all_commands, assemble, balanced, command_filter, commands, depth, fault, innermost_open,
    instruction_at, is_command, is_pair, lemma_close_exists, lemma_close_unique,
    lemma_depth_of_concat, lemma_depth_of_prefix, lemma_innermost_open_unique, lemma_open_unique,
    lemma_stray_close_unique, lemma_unbalanced_has_fault, no_stray_close, open_without_close,
    partner, stray_close, Instruction, SYM_CELL_DEC, SYM_CELL_INC, SYM_INPUT, SYM_LOOP_END,
    SYM_LOOP_START, SYM_OUTPUT, SYM_POINTER_DEC, SYM_POINTER_INC,
};
use vstd::prelude::*;

verus! {

/// The commands of the first `at` bytes of a source are the first commands of
/// the whole; the byte at `at` adds itself to them if it is a command, and
/// nothing if it is not.
proof fn lemma_commands_grow(source: Seq<u8>, at: int)
    requires
        0 <= at < source.len(),
    ensures
        ({
            let c = commands(source);
            let n = commands(source.take(at)).len() as int;
            &&& commands(source.take(at)) == c.take(n)
            &&& n <= c.len()
            &&& if is_command(source[at]) {
                &&& n < c.len()
                &&& c[n] == source[at]
                &&& commands(source.take(at + 1)).len() == n + 1
            } else {
                commands(source.take(at + 1)).len() == n
            }
        }),
{
    let pred = command_filter();
    let before = source.take(at);
    let upto = source.take(at + 1);
    assert(before + source.skip(at) =~= source);
    assert(upto + source.skip(at + 1) =~= source);
    Seq::filter_distributes_over_add(before, source.skip(at), pred);
    Seq::filter_distributes_over_add(upto, source.skip(at + 1), pred);
    assert(upto.drop_last() =~= before);
    assert(upto.last() == source[at]);
    assert(upto.filter(pred) == if pred(source[at]) {
        before.filter(pred).push(source[at])
    } else {
        before.filter(pred)
    }) by {
        reveal(Seq::filter);
    }
    assert(commands(source).take(before.filter(pred).len() as int) =~= before.filter(pred));
}

/// The commands of a source are command symbols, and no more of them than
/// the source has bytes.
pub proof fn lemma_commands_are_commands(source: Seq<u8>)
    ensures
        all_commands(commands(source)),
        commands(source).len() <= source.len(),
{
    source.lemma_filter_len(command_filter());
    assert forall|at: int| 0 <= at < commands(source).len() implies is_command(
        #[trigger] commands(source)[at],
    ) by {
        source.lemma_filter_pred(command_filter(), at);
    }
}

/// The commands of two texts, one behind the other, are the commands of the
/// first and then those of the second.
pub proof fn lemma_commands_concat(first: Seq<u8>, second: Seq<u8>)
    ensures
        commands(first + second) == commands(first) + commands(second),
{
    Seq::filter_distributes_over_add(first, second, command_filter());
}

/// The commands of a single byte: the byte, if it is a command.
pub proof fn lemma_commands_single(byte: u8)
    ensures
        commands(seq![byte]) == if is_command(byte) {
            seq![byte]
        } else {
            Seq::<u8>::empty()
        },
{
    reveal_with_fuel(Seq::filter, 2);
    let one = seq![byte];
    assert(one.drop_last() =~= Seq::<u8>::empty());
    assert(one.last() == byte);
    assert(Seq::<u8>::empty().push(byte) =~= seq![byte]);
}

/// A byte that is no command, wherever it stands in a source, changes
/// nothing: the commands are those of the source without it, each at its
/// place, and so is what they assemble to.
pub proof fn lemma_noise_is_ignored(before: Seq<u8>, noise: u8, after: Seq<u8>)
    requires
        !is_command(noise),
    ensures
        commands(before + seq![noise] + after) == commands(before + after),
        assemble(commands(before + seq![noise] + after)) == assemble(commands(before + after)),
{
    lemma_commands_concat(before + seq![noise], after);
    lemma_commands_concat(before, seq![noise]);
    lemma_commands_single(noise);
    lemma_commands_concat(before, after);
    assert(commands(before) + Seq::<u8>::empty() =~= commands(before));
}

/// A closing bracket behind a balanced text is reported, whatever follows:
/// the source fails to assemble with the position that the bracket has
/// among the commands.
pub proof fn lemma_extra_close_is_reported(before: Seq<u8>, after: Seq<u8>)
    requires
        balanced(commands(before)),
        commands(before).len() <= usize::MAX,
    ensures
        assemble(commands(before + seq![SYM_LOOP_END] + after)) == Err::<
            Seq<Instruction>,
            BfError,
        >(BfError::NoneMatchingBracket { index: commands(before).len() as usize }),
{
    let head = commands(before);
    let c = commands(before + seq![SYM_LOOP_END] + after);
    let at = head.len() as int;
    lemma_commands_concat(before + seq![SYM_LOOP_END], after);
    lemma_commands_concat(before, seq![SYM_LOOP_END]);
    lemma_commands_single(SYM_LOOP_END);
    assert(c =~= head + seq![SYM_LOOP_END] + commands(after));
    assert(c[at] == SYM_LOOP_END);
    assert forall|k: int| 0 <= k <= at implies depth(c, k) == depth(head, k) by {
        assert(c.take(k) =~= head.take(k));
        lemma_depth_of_prefix(c, head, k);
    }
    assert(stray_close(c, at));
    assert(depth(c, at + 1) < 0);
    lemma_stray_close_unique(c, at, fault(c));
}

/// An opening bracket with a balanced text behind it, and in front of it a
/// text without a stray closing bracket, is reported: the source fails to
/// assemble with the position that the bracket has among the commands.
pub proof fn lemma_extra_open_is_reported(before: Seq<u8>, after: Seq<u8>)
    requires
        no_stray_close(commands(before), commands(before).len() as int),
        balanced(commands(after)),
        commands(before).len() <= usize::MAX,
    ensures
        assemble(commands(before + seq![SYM_LOOP_START] + after)) == Err::<
            Seq<Instruction>,
            BfError,
        >(BfError::NoneMatchingBracket { index: commands(before).len() as usize }),
{
    let head = commands(before);
    let tail = commands(after);
    let c = commands(before + seq![SYM_LOOP_START] + after);
    let at = head.len() as int;
    lemma_commands_concat(before + seq![SYM_LOOP_START], after);
    lemma_commands_concat(before, seq![SYM_LOOP_START]);
    lemma_commands_single(SYM_LOOP_START);
    let front = head + seq![SYM_LOOP_START];
    assert(c =~= front + tail);
    assert(c[at] == SYM_LOOP_START);
    assert forall|k: int| 0 <= k <= at implies depth(c, k) == depth(head, k) by {
        assert(c.take(k) =~= head.take(k));
        lemma_depth_of_prefix(c, head, k);
    }
    assert(front.take(at) =~= head.take(at));
    lemma_depth_of_prefix(front, head, at);
    assert(depth(front, at + 1) == depth(head, at) + 1);
    assert forall|j: int| 0 <= j <= tail.len() implies depth(c, at + 1 + j) == depth(head, at) + 1
        + depth(tail, j) by {
        lemma_depth_of_concat(front, tail, j);
    }
    assert forall|k: int| at < k <= c.len() implies depth(c, k) > depth(c, at) by {
        let j = k - at - 1;
        assert(depth(c, at + 1 + j) == depth(head, at) + 1 + depth(tail, j));
        assert(depth(tail, j) >= 0);
    }
    assert(open_without_close(c, at));
    assert forall|j: int| at < j < c.len() implies !open_without_close(c, j) by {
        if c[j] == SYM_LOOP_START {
            let inner = j - at - 1;
            assert(tail[inner] == c[j]);
            let close = lemma_close_exists(tail, inner);
            assert(depth(c, at + 1 + inner) == depth(head, at) + 1 + depth(tail, inner));
            assert(depth(c, at + 1 + (close + 1)) == depth(head, at) + 1 + depth(tail, close + 1));
            assert(depth(c, at + close + 2) == depth(c, j));
        }
    }
    assert(innermost_open(c, at));
    assert(depth(c, at + 1 + tail.len()) == depth(head, at) + 1 + depth(tail, tail.len() as int));
    assert(!balanced(c));
    assert(no_stray_close(c, c.len() as int)) by {
        assert forall|k: int| 0 <= k <= c.len() implies depth(c, k) >= 0 by {
            if k > at {
                assert(depth(c, k) > depth(c, at));
            }
        }
    }
    assert forall|other: int| !stray_close(c, other) by {
        if 0 <= other < c.len() {
            assert(depth(c, other + 1) >= 0);
        }
    }
    lemma_unbalanced_has_fault(c);
    lemma_innermost_open_unique(c, at, fault(c));
}

/// `pending` lists, in their order, the opening brackets in front of `n` that
/// nothing in front of `n` closes.
spec fn pending_ok(c: Seq<u8>, n: int, pending: Seq<usize>) -> bool {
    &&& pending.len() == depth(c, n)
    &&& forall|s: int|
        0 <= s < pending.len() ==> {
            &&& (#[trigger] pending[s]) < n
            &&& c[pending[s] as int] == SYM_LOOP_START
            &&& depth(c, pending[s] as int) == s
        }
    &&& forall|s: int, k: int|
        0 <= s < pending.len() && pending[s] < k <= n ==> #[trigger] depth(c, k) > #[trigger] depth(
            c,
            pending[s] as int,
        )
}

/// The opening bracket at `at` is one of `pending`.
spec fn is_pending(c: Seq<u8>, pending: Seq<usize>, at: int) -> bool {
    0 <= depth(c, at) < pending.len() && pending[depth(c, at)] == at
}

/// The instruction at `at` is the one that the command there stands for; an
/// opening bracket that is still pending may hold any target.
spec fn resolved_at(c: Seq<u8>, pending: Seq<usize>, program: Seq<Instruction>, at: int) -> bool {
    if c[at] == SYM_LOOP_START {
        ||| is_pending(c, pending, at)
        ||| (program[at] matches Instruction::LoopStart { target } && is_pair(c, at, target as int))
    } else if c[at] == SYM_LOOP_END {
        program[at] matches Instruction::LoopEnd { target } && is_pair(c, target as int, at)
    } else {
        program[at] == instruction_at(c, at)
    }
}

/// Assembles a source text.
///
/// Bytes that are no commands are passed over and take no place among the
/// instructions. The result is the program in which every bracket holds the
/// position of its partner, or the error that names the bracket at fault.
pub fn compile(source: &[u8]) -> (result: Result<Vec<Instruction>, BfError>)
    ensures
        match result {
            Ok(program) => assemble(commands(source@)) == Ok::<Seq<Instruction>, BfError>(program@),
            Err(error) => assemble(commands(source@)) == Err::<Seq<Instruction>, BfError>(error),
        },
{
    let ghost c = commands(source@);
    let mut program: Vec<Instruction> = Vec::new();
    let mut pending: Vec<usize> = Vec::new();
    let mut at: usize = 0;
    assert(source@.take(0) =~= Seq::<u8>::empty());
    assert(commands(source@.take(0)).len() == 0) by {
        reveal(Seq::filter);
    }
    while at < source.len()
        invariant
            c == commands(source@),
            at <= source.len(),
            program.len() == commands(source@.take(at as int)).len(),
            program.len() <= c.len(),
            no_stray_close(c, program.len() as int),
            pending_ok(c, program.len() as int, pending@),
            forall|i: int| 0 <= i < program.len() ==> resolved_at(c, pending@, program@, i),
        decreases source.len() - at,
    {
        let byte = source[at];
        let index = program.len();
        proof {
            lemma_commands_grow(source@, at as int);
            source@.take(at as int).lemma_filter_len(command_filter());
        }
        let ghost old_pending = pending@;
        let ghost old_program = program@;
        if byte == SYM_LOOP_START {
            pending.push(index);
            program.push(Instruction::LoopStart { target: usize::MAX });
            proof {
                assert(is_pending(c, pending@, index as int));
                assert forall|i: int| 0 <= i < index implies resolved_at(c, pending@, program@, i) by {
                    assert(resolved_at(c, old_pending, old_program, i));
                }
            }
        } else if byte == SYM_LOOP_END {
            match pending.pop() {
                None => {
                    proof {
                        assert(stray_close(c, index as int));
                        assert(depth(c, index + 1) < 0);
                        assert forall|other: int| stray_close(c, other) implies other == index by {
                            lemma_stray_close_unique(c, other, index as int);
                        }
                    }
                    return Err(BfError::NoneMatchingBracket { index });
                },
                Some(begin) => {
                    assert(is_pair(c, begin as int, index as int));
                    program.set(begin, Instruction::LoopStart { target: index });
                    program.push(Instruction::LoopEnd { target: begin });
                    proof {
                        assert forall|i: int| 0 <= i < index implies resolved_at(
                            c,
                            pending@,
                            program@,
                            i,
                        ) by {
                            assert(resolved_at(c, old_pending, old_program, i));
                            if is_pending(c, old_pending, i) && i != begin {
                                assert(depth(c, i) != old_pending.len() - 1);
                            }
                        }
                    }
                },
            }
        } else if byte == SYM_POINTER_INC {
            program.push(Instruction::PointerInc);
        } else if byte == SYM_POINTER_DEC {
            program.push(Instruction::PointerDec);
        } else if byte == SYM_CELL_INC {
            program.push(Instruction::CellInc);
        } else if byte == SYM_CELL_DEC {
            program.push(Instruction::CellDec);
        } else if byte == SYM_OUTPUT {
            program.push(Instruction::Output);
        } else if byte == SYM_INPUT {
            program.push(Instruction::Input);
        }
        proof {
            if pending@ == old_pending {
                assert forall|i: int| 0 <= i < program.len() implies resolved_at(
                    c,
                    pending@,
                    program@,
                    i,
                ) by {
                    if i < index {
                        assert(resolved_at(c, old_pending, old_program, i));
                    }
                }
            }
        }
        at += 1;
    }
    assert(source@.take(at as int) =~= source@);
    if pending.len() > 0 {
        let top = pending[pending.len() - 1];
        proof {
            assert(open_without_close(c, top as int));
            assert(innermost_open(c, top as int));
            assert forall|other: int| innermost_open(c, other) implies other == top by {}
            assert(!exists|other: int| stray_close(c, other)) by {
                assert forall|other: int| !stray_close(c, other) by {
                    if 0 <= other < c.len() {
                        assert(depth(c, other + 1) >= 0);
                    }
                }
            }
        }
        return Err(BfError::NoneMatchingBracket { index: top });
    }
    proof {
        assert(balanced(c));
        assert forall|i: int| 0 <= i < c.len() implies program@[i] == instruction_at(c, i) by {
            assert(resolved_at(c, pending@, program@, i));
            if c[i] == SYM_LOOP_START {
                let target = program@[i]->LoopStart_target;
                lemma_close_unique(c, i, target as int, partner(c, i));
            } else if c[i] == SYM_LOOP_END {
                let target = program@[i]->LoopEnd_target;
                lemma_open_unique(c, target as int, partner(c, i), i);
            }
        }
        assert(program@ =~= Seq::new(c.len(), |i: int| instruction_at(c, i)));
    }
    Ok(program)
}

} // verus!
