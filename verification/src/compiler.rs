//! The optimiser: fuses the loop that only counts a cell down to zero into
//! one instruction, and links the brackets of the program that results.

use crate::brackets::{
    balanced, closes_unopened, depth, leaves_open, lemma_depth_agrees, lemma_depth_concat,
    lemma_linking_close, lemma_linking_done, lemma_linking_facts, lemma_linking_open,
    lemma_linking_other, lemma_linking_start, lemma_matching_is_unique, linked, linking,
};
use crate::command::{CollapsedCommands, Command, CompiledCollapsedCommand, CompiledCommand};
use crate::parser::{positions, shape, step_of, StructuralError};
use vstd::prelude::*;

verus! {

/// The instruction of the optimised program that does what `command` does.
pub open spec fn compiled_command(command: Command) -> CompiledCommand {
    match command {
        Command::Plus => CompiledCommand::Plus,
        Command::Minus => CompiledCommand::Minus,
        Command::LeftLoop => CompiledCommand::LeftLoop,
        Command::RightLoop => CompiledCommand::RightLoop,
        Command::Left => CompiledCommand::Left,
        Command::Right => CompiledCommand::Right,
        Command::Output => CompiledCommand::Output,
        Command::Input => CompiledCommand::Input,
    }
}

/// An entry copied through the optimiser: the same instruction with the same
/// amount.
pub open spec fn copied(entry: CollapsedCommands) -> CompiledCollapsedCommand {
    CompiledCollapsedCommand { command: compiled_command(entry.command), amount: entry.amount }
}

/// The instruction that stands for a whole cell-clearing loop.
pub open spec fn set_zero() -> CompiledCollapsedCommand {
    CompiledCollapsedCommand { command: CompiledCommand::SetZero, amount: 1 }
}

/// The three entries from `i` on are a loop whose whole body subtracts one:
/// `LeftLoop`, then `Minus` with amount 1, then `RightLoop`.
pub open spec fn clears_cell_at(program: Seq<CollapsedCommands>, i: int) -> bool {
    &&& 0 <= i
    &&& i + 2 < program.len()
    &&& program[i].command == Command::LeftLoop
    &&& program[i + 1] == (CollapsedCommands { command: Command::Minus, amount: 1 })
    &&& program[i + 2].command == Command::RightLoop
}

/// The program after one pass from left to right in which every
/// cell-clearing loop becomes one `SetZero` and every other entry is copied.
/// Nothing else changes: what the brackets that remain record is copied
/// too, and so may point past the place where their partners now stand.
pub open spec fn optimized(program: Seq<CollapsedCommands>) -> Seq<CompiledCollapsedCommand>
    decreases program.len(),
{
    if program.len() == 0 {
        Seq::empty()
    } else if clears_cell_at(program, 0) {
        seq![set_zero()] + optimized(program.skip(3))
    } else {
        seq![copied(program[0])] + optimized(program.skip(1))
    }
}

/// A program without a cell-clearing loop passes the optimiser unchanged.
pub proof fn lemma_optimized_without_clearing_loop(program: Seq<CollapsedCommands>)
    requires
        forall|i: int| !clears_cell_at(program, i),
    ensures
        optimized(program) == program.map_values(|entry: CollapsedCommands| copied(entry)),
    decreases program.len(),
{
    let copy = |entry: CollapsedCommands| copied(entry);
    if program.len() > 0 {
        let rest = program.skip(1);
        assert forall|i: int| !clears_cell_at(rest, i) by {
            if clears_cell_at(rest, i) {
                assert(clears_cell_at(program, i + 1));
            }
        }
        lemma_optimized_without_clearing_loop(rest);
        assert(!clears_cell_at(program, 0));
        assert(program.map_values(copy) =~= seq![copied(program[0])] + rest.map_values(copy));
    } else {
        assert(program.map_values(copy) =~= Seq::empty());
    }
}

/// The executable form of [`compiled_command`].
fn compiled(command: Command) -> (result: CompiledCommand)
    ensures
        result == compiled_command(command),
{
    match command {
        Command::Plus => CompiledCommand::Plus,
        Command::Minus => CompiledCommand::Minus,
        Command::LeftLoop => CompiledCommand::LeftLoop,
        Command::RightLoop => CompiledCommand::RightLoop,
        Command::Left => CompiledCommand::Left,
        Command::Right => CompiledCommand::Right,
        Command::Output => CompiledCommand::Output,
        Command::Input => CompiledCommand::Input,
    }
}

/// Optimises a collapsed program.
///
/// Each `LeftLoop`, `Minus` with amount 1, `RightLoop` in a row becomes a
/// single `SetZero` with amount 1. Every other entry is copied with its
/// amount. The program thereby gets shorter while the brackets that remain
/// keep what they recorded: link them anew with [`relink`] before running
/// the result.
pub fn compile(commands: Vec<CollapsedCommands>) -> (compiled_commands: Vec<
    CompiledCollapsedCommand,
>)
    ensures
        compiled_commands@ == optimized(commands@),
{
    let mut compiled_commands: Vec<CompiledCollapsedCommand> = Vec::new();
    let mut index: usize = 0;
    proof {
        assert(commands@.skip(0) =~= commands@);
        assert(compiled_commands@ + optimized(commands@) =~= optimized(commands@));
    }
    while index < commands.len()
        invariant
            index <= commands.len(),
            optimized(commands@) == compiled_commands@ + optimized(commands@.skip(index as int)),
        decreases commands.len() - index,
    {
        let ghost rest = commands@.skip(index as int);
        let ghost so_far = compiled_commands@;
        let current_command = commands[index];
        if current_command.command == Command::LeftLoop && commands.len() - index > 2
            && commands[index + 1].command == Command::Minus && commands[index + 1].amount == 1
            && commands[index + 2].command == Command::RightLoop {
            compiled_commands.push(
                CompiledCollapsedCommand { command: CompiledCommand::SetZero, amount: 1 },
            );
            proof {
                assert(clears_cell_at(rest, 0));
                assert(rest.skip(3) =~= commands@.skip(index + 3));
                assert(compiled_commands@ + optimized(rest.skip(3)) =~= so_far + optimized(rest));
            }
            index = index + 3;
        } else {
            compiled_commands.push(
                CompiledCollapsedCommand {
                    command: compiled(current_command.command),
                    amount: current_command.amount,
                },
            );
            proof {
                assert(!clears_cell_at(rest, 0));
                assert(rest.skip(1) =~= commands@.skip(index + 1));
                assert(compiled_commands@ + optimized(rest.skip(1)) =~= so_far + optimized(rest));
            }
            index = index + 1;
        }
    }
    proof {
        assert(commands@.skip(index as int) =~= Seq::empty());
        assert(compiled_commands@ + Seq::empty() =~= compiled_commands@);
    }
    compiled_commands
}

/// What an instruction of the optimised program does to the nesting depth.
pub open spec fn compiled_step_of(command: CompiledCommand) -> int {
    match command {
        CompiledCommand::LeftLoop => 1,
        CompiledCommand::RightLoop => -1,
        _ => 0,
    }
}

/// The bracket structure of an optimised program.
pub open spec fn compiled_shape(program: Seq<CompiledCollapsedCommand>) -> Seq<int> {
    program.map_values(|entry: CompiledCollapsedCommand| compiled_step_of(entry.command))
}

/// The amounts of an optimised program, which at its brackets are jump
/// targets.
pub open spec fn compiled_targets(program: Seq<CompiledCollapsedCommand>) -> Seq<int> {
    program.map_values(|entry: CompiledCollapsedCommand| entry.amount as int)
}

/// The depth never falls below `floor`.
pub open spec fn stays_at_or_above(steps: Seq<int>, floor: int) -> bool {
    forall|k: int| 0 <= k <= steps.len() ==> depth(steps, k) >= floor
}

/// The optimiser does not change how deep the nesting ends, and does not
/// let it fall below a floor that it kept before.
pub proof fn lemma_optimized_keeps_depths(program: Seq<CollapsedCommands>, floor: int)
    requires
        stays_at_or_above(shape(program), floor),
    ensures
        stays_at_or_above(compiled_shape(optimized(program)), floor),
        depth(compiled_shape(optimized(program)), optimized(program).len() as int) == depth(
            shape(program),
            program.len() as int,
        ),
    decreases program.len(),
{
    let before = shape(program);
    let after = compiled_shape(optimized(program));
    assert(depth(before, 0) >= floor);
    if program.len() == 0 {
    } else if clears_cell_at(program, 0) {
        let rest = program.skip(3);
        let loop_steps = seq![1int, 0int, -1int];
        assert(before =~= loop_steps + shape(rest));
        assert(depth(loop_steps, 3) == 0) by {
            reveal_with_fuel(depth, 4);
        }
        assert forall|k: int| 0 <= k <= rest.len() implies depth(shape(rest), k) >= floor by {
            lemma_depth_concat(loop_steps, shape(rest), k);
            assert(depth(before, 3 + k) >= floor);
        }
        lemma_optimized_keeps_depths(rest, floor);
        let tail = compiled_shape(optimized(rest));
        let head = seq![0int];
        assert(after =~= head + tail);
        assert(depth(head, 1) == 0) by {
            reveal_with_fuel(depth, 2);
        }
        assert forall|k: int| 0 <= k <= after.len() implies depth(after, k) >= floor by {
            if k > 0 {
                lemma_depth_concat(head, tail, k - 1);
            }
        }
        lemma_depth_concat(head, tail, tail.len() as int);
        lemma_depth_concat(loop_steps, shape(rest), rest.len() as int);
    } else {
        let rest = program.skip(1);
        let step = step_of(program[0].command);
        let head = seq![step];
        assert(compiled_step_of(compiled_command(program[0].command)) == step);
        assert(before =~= head + shape(rest));
        assert(depth(head, 1) == step) by {
            reveal_with_fuel(depth, 2);
        }
        assert forall|k: int| 0 <= k <= rest.len() implies depth(shape(rest), k) >= floor
            - step by {
            lemma_depth_concat(head, shape(rest), k);
            assert(depth(before, 1 + k) >= floor);
        }
        lemma_optimized_keeps_depths(rest, floor - step);
        let tail = compiled_shape(optimized(rest));
        assert(after =~= head + tail);
        assert forall|k: int| 0 <= k <= after.len() implies depth(after, k) >= floor by {
            if k > 0 {
                lemma_depth_concat(head, tail, k - 1);
            }
        }
        lemma_depth_concat(head, tail, tail.len() as int);
        lemma_depth_concat(head, shape(rest), rest.len() as int);
    }
}

/// The optimiser keeps brackets balanced: a program whose brackets pair up
/// can be linked anew after it was optimised.
pub proof fn lemma_optimized_keeps_balance(program: Seq<CollapsedCommands>)
    requires
        balanced(shape(program)),
    ensures
        balanced(compiled_shape(optimized(program))),
{
    lemma_optimized_keeps_depths(program, 0);
}

/// `after` is `before` but for what its brackets record.
pub open spec fn same_but_targets(
    before: Seq<CompiledCollapsedCommand>,
    after: Seq<CompiledCollapsedCommand>,
) -> bool {
    &&& after.len() == before.len()
    &&& forall|i: int|
        0 <= i < before.len() ==> (#[trigger] after[i]).command == before[i].command
    &&& forall|i: int|
        0 <= i < before.len() && compiled_step_of(before[i].command) == 0 ==> (
        #[trigger] after[i]).amount == before[i].amount
}

/// There is one way to link a program anew: two programs that are the given
/// one but for what their brackets record, and whose brackets are linked,
/// are equal.
pub proof fn lemma_relinked_is_unique(
    given: Seq<CompiledCollapsedCommand>,
    first: Seq<CompiledCollapsedCommand>,
    second: Seq<CompiledCollapsedCommand>,
)
    requires
        same_but_targets(given, first),
        same_but_targets(given, second),
        linked(compiled_shape(first), compiled_targets(first)),
        linked(compiled_shape(second), compiled_targets(second)),
    ensures
        first == second,
{
    let steps = compiled_shape(given);
    assert(steps =~= compiled_shape(first));
    assert(steps =~= compiled_shape(second));
    assert forall|i: int| 0 <= i < first.len() implies first[i] == second[i] by {
        assert(first[i].command == given[i].command);
        assert(second[i].command == given[i].command);
        if steps[i] == 1 {
            lemma_matching_is_unique(
                steps,
                i,
                compiled_targets(first)[i],
                i,
                compiled_targets(second)[i],
            );
        } else if steps[i] == -1 {
            lemma_matching_is_unique(
                steps,
                compiled_targets(first)[i],
                i,
                compiled_targets(second)[i],
                i,
            );
        } else {
            assert(first[i].amount == given[i].amount);
            assert(second[i].amount == given[i].amount);
        }
    }
    assert(first =~= second);
}

/// Links the brackets of an optimised program anew.
///
/// Every `LeftLoop` comes to record the index of the `RightLoop` that closes
/// its loop, and every `RightLoop` the index of the `LeftLoop` that opened
/// it; nothing else changes. A program whose brackets do not pair up is
/// rejected.
pub fn relink(program: Vec<CompiledCollapsedCommand>) -> (outcome: Result<
    Vec<CompiledCollapsedCommand>,
    StructuralError,
>)
    ensures
        match outcome {
            Ok(result) => {
                &&& balanced(compiled_shape(program@))
                &&& same_but_targets(program@, result@)
                &&& linked(compiled_shape(result@), compiled_targets(result@))
            },
            Err(StructuralError::UnmatchedClosingBracket) => closes_unopened(
                compiled_shape(program@),
            ),
            Err(StructuralError::UnmatchedOpeningBracket) => leaves_open(compiled_shape(program@)),
        },
{
    let ghost given = program@;
    let mut relinked = program;
    let mut loop_stack: Vec<usize> = Vec::new();
    let mut index: usize = 0;
    proof {
        lemma_linking_start();
        assert(compiled_shape(relinked@.take(0)) =~= Seq::<int>::empty());
        assert(compiled_targets(relinked@.take(0)) =~= Seq::<int>::empty());
        assert(positions(loop_stack@) =~= Seq::<int>::empty());
    }
    while index < relinked.len()
        invariant
            index <= relinked.len(),
            given == program@,
            same_but_targets(given, relinked@),
            forall|i: int| index <= i < relinked.len() ==> #[trigger] relinked[i] == given[i],
            linking(
                compiled_shape(relinked@.take(index as int)),
                compiled_targets(relinked@.take(index as int)),
                positions(loop_stack@),
            ),
        decreases relinked.len() - index,
    {
        let ghost before = relinked@;
        let ghost read = relinked@.take(index as int);
        let ghost stack_before = loop_stack@;
        let entry = relinked[index];
        proof {
            lemma_linking_facts(
                compiled_shape(read),
                compiled_targets(read),
                positions(stack_before),
            );
        }
        match entry.command {
            CompiledCommand::LeftLoop => {
                loop_stack.push(index);
                proof {
                    lemma_linking_open(
                        compiled_shape(read),
                        compiled_targets(read),
                        positions(stack_before),
                        entry.amount as int,
                    );
                    let next = relinked@.take(index + 1);
                    assert(next =~= read.push(entry));
                    assert(compiled_shape(next) =~= compiled_shape(read).push(1));
                    assert(compiled_targets(next) =~= compiled_targets(read).push(
                        entry.amount as int,
                    ));
                    assert(positions(loop_stack@) =~= positions(stack_before).push(index as int));
                }
            },
            CompiledCommand::RightLoop => {
                match loop_stack.pop() {
                    None => {
                        proof {
                            let k = index as int + 1;
                            let steps = compiled_shape(given);
                            lemma_depth_agrees(steps, compiled_shape(read), index as int);
                            assert(positions(stack_before).len() == 0);
                            assert(depth(steps, index as int) == 0);
                            assert(before[index as int] == given[index as int]);
                            assert(steps[index as int] == -1);
                            assert(depth(steps, k) < 0);
                        }
                        return Err(StructuralError::UnmatchedClosingBracket);
                    },
                    Some(open_index) => {
                        proof {
                            assert(positions(stack_before).last() == open_index);
                            assert(positions(loop_stack@) =~= positions(stack_before).drop_last());
                            lemma_linking_close(
                                compiled_shape(read),
                                compiled_targets(read),
                                positions(stack_before),
                            );
                        }
                        relinked[open_index].amount = index;
                        relinked[index].amount = open_index;
                        proof {
                            let next = relinked@.take(index + 1);
                            assert(next =~= read.update(
                                open_index as int,
                                (CompiledCollapsedCommand {
                                    command: CompiledCommand::LeftLoop,
                                    amount: index,
                                }),
                            ).push(
                                (CompiledCollapsedCommand {
                                    command: CompiledCommand::RightLoop,
                                    amount: open_index,
                                }),
                            ));
                            assert(compiled_shape(next) =~= compiled_shape(read).push(-1));
                            assert(compiled_targets(next) =~= compiled_targets(read).update(
                                open_index as int,
                                index as int,
                            ).push(open_index as int));
                        }
                    },
                }
            },
            _ => {
                proof {
                    lemma_linking_other(
                        compiled_shape(read),
                        compiled_targets(read),
                        positions(stack_before),
                        entry.amount as int,
                    );
                    let next = relinked@.take(index + 1);
                    assert(next =~= read.push(entry));
                    assert(compiled_shape(next) =~= compiled_shape(read).push(0));
                    assert(compiled_targets(next) =~= compiled_targets(read).push(
                        entry.amount as int,
                    ));
                }
            },
        }
        index = index + 1;
    }
    proof {
        assert(relinked@.take(index as int) =~= relinked@);
        assert(compiled_shape(given) =~= compiled_shape(relinked@));
        lemma_linking_facts(
            compiled_shape(relinked@),
            compiled_targets(relinked@),
            positions(loop_stack@),
        );
    }
    if loop_stack.len() > 0 {
        return Err(StructuralError::UnmatchedOpeningBracket);
    }
    proof {
        lemma_linking_done(
            compiled_shape(relinked@),
            compiled_targets(relinked@),
            positions(loop_stack@),
        );
    }
    Ok(relinked)
}

} // verus!
