//! Parsing: instruction symbols in, run-length collapsed commands with
//! matched loop brackets out.

use crate::brackets::{
    balanced, closes_unopened, depth, leaves_open, lemma_depth_agrees, lemma_depth_push,
    lemma_linked_is_mutual, lemma_linking_close, lemma_linking_done, lemma_linking_facts,
    lemma_linking_open, lemma_linking_other, lemma_linking_retarget, lemma_linking_start,
    lemma_matching_is_unique, linked, linking, never_negative,
};
use crate::command::{CollapsedCommands, Command};
use crate::lexer::{is_symbol, symbols, Lexer};
use vstd::prelude::*;
use vstd::std_specs::iter::IteratorSpec;

verus! {

/// Why a program's brackets do not pair up.
#[derive(Clone, Copy, PartialEq, Eq, Structural, Debug)]
pub enum StructuralError {
    /// A `]` closes a loop that no `[` before it has opened.
    UnmatchedClosingBracket,
    /// The text ends while a loop opened by `[` is still open.
    UnmatchedOpeningBracket,
}

/// The command that an instruction symbol stands for.
pub open spec fn command_of(symbol: char) -> Command {
    if symbol == '+' {
        Command::Plus
    } else if symbol == '-' {
        Command::Minus
    } else if symbol == '[' {
        Command::LeftLoop
    } else if symbol == ']' {
        Command::RightLoop
    } else if symbol == '>' {
        Command::Right
    } else if symbol == '<' {
        Command::Left
    } else if symbol == '.' {
        Command::Output
    } else {
        Command::Input
    }
}

/// The commands of a source text, one for each of its instruction symbols.
pub open spec fn source_commands(text: Seq<char>) -> Seq<Command> {
    symbols(text).map_values(|symbol: char| command_of(symbol))
}

/// What a command does to the nesting depth.
pub open spec fn step_of(command: Command) -> int {
    match command {
        Command::LeftLoop => 1,
        Command::RightLoop => -1,
        _ => 0,
    }
}

/// The bracket structure of a sequence of commands.
pub open spec fn steps_of(commands: Seq<Command>) -> Seq<int> {
    commands.map_values(|command: Command| step_of(command))
}

/// The bracket structure of a collapsed program.
pub open spec fn shape(program: Seq<CollapsedCommands>) -> Seq<int> {
    program.map_values(|entry: CollapsedCommands| step_of(entry.command))
}

/// The amounts of a collapsed program, which at its brackets are jump
/// targets.
pub open spec fn targets(program: Seq<CollapsedCommands>) -> Seq<int> {
    program.map_values(|entry: CollapsedCommands| entry.amount as int)
}

/// The commands that one entry of a collapsed program stands for: a bracket
/// for itself, anything else for `amount` copies of its command.
pub open spec fn run_of(entry: CollapsedCommands) -> Seq<Command> {
    if entry.command.is_loop() {
        seq![entry.command]
    } else {
        Seq::new(entry.amount as nat, |i: int| entry.command)
    }
}

/// The commands that a collapsed program stands for.
pub open spec fn expand(program: Seq<CollapsedCommands>) -> Seq<Command>
    decreases program.len(),
{
    if program.len() == 0 {
        Seq::empty()
    } else {
        expand(program.drop_last()) + run_of(program.last())
    }
}

/// The entry at `i`, unless it is a bracket, stands for at least one command
/// and for another command than the entry before it.
pub open spec fn starts_run(program: Seq<CollapsedCommands>, i: int) -> bool {
    !program[i].command.is_loop() ==> {
        &&& program[i].amount >= 1
        &&& i > 0 ==> program[i - 1].command != program[i].command
    }
}

/// Every run of equal commands is merged into one entry: no entry is empty,
/// and no two neighbours could be merged further.
pub open spec fn fully_collapsed(program: Seq<CollapsedCommands>) -> bool {
    forall|i: int| 0 <= i < program.len() ==> #[trigger] starts_run(program, i)
}

/// Every `LeftLoop` records the index of a later `RightLoop`, which records
/// the index of that `LeftLoop` in turn.
pub open spec fn loops_paired(program: Seq<CollapsedCommands>) -> bool {
    forall|i: int|
        #![trigger program[i]]
        0 <= i < program.len() && program[i].command == Command::LeftLoop ==> {
            let j = program[i].amount as int;
            &&& i < j < program.len()
            &&& program[j].command == Command::RightLoop
            &&& program[j].amount == i
        }
}

/// In a collapsed program whose brackets are linked, the two brackets of
/// every loop record each other's index.
pub proof fn lemma_linked_loops_are_paired(program: Seq<CollapsedCommands>)
    requires
        linked(shape(program), targets(program)),
    ensures
        loops_paired(program),
{
    assert forall|i: int|
        #![trigger program[i]]
        0 <= i < program.len() && program[i].command == Command::LeftLoop implies {
        let j = program[i].amount as int;
        &&& i < j < program.len()
        &&& program[j].command == Command::RightLoop
        &&& program[j].amount == i
    } by {
        assert(shape(program)[i] == 1);
        lemma_linked_is_mutual(shape(program), targets(program), i);
        let j = program[i].amount as int;
        assert(shape(program)[j] == -1);
    }
}

/// Appending an entry appends the commands it stands for.
proof fn lemma_expand_push(program: Seq<CollapsedCommands>, entry: CollapsedCommands)
    ensures
        expand(program.push(entry)) == expand(program) + run_of(entry),
{
    assert(program.push(entry).drop_last() =~= program);
}

/// Counting one more at the last entry appends one more of its command.
proof fn lemma_expand_count(program: Seq<CollapsedCommands>)
    requires
        program.len() > 0,
        !program.last().command.is_loop(),
        program.last().amount < usize::MAX,
    ensures
        expand(
            program.update(
                program.len() - 1,
                (CollapsedCommands {
                    command: program.last().command,
                    amount: (program.last().amount + 1) as usize,
                }),
            ),
        ) == expand(program).push(program.last().command),
{
    let last = program.last();
    let grown = CollapsedCommands { command: last.command, amount: (last.amount + 1) as usize };
    let counted = program.update(program.len() - 1, grown);
    assert(counted.drop_last() =~= program.drop_last());
    assert(run_of(grown) =~= run_of(last).push(last.command));
    assert(expand(counted) =~= expand(program).push(last.command));
}

/// What a bracket records does not change the commands that the program
/// stands for.
proof fn lemma_expand_retarget(program: Seq<CollapsedCommands>, at: int, target: usize)
    requires
        0 <= at < program.len(),
        program[at].command.is_loop(),
    ensures
        expand(
            program.update(at, (CollapsedCommands { command: program[at].command, amount: target })),
        ) == expand(program),
    decreases program.len(),
{
    let entry = CollapsedCommands { command: program[at].command, amount: target };
    let changed = program.update(at, entry);
    if at == program.len() - 1 {
        assert(changed.drop_last() =~= program.drop_last());
    } else {
        lemma_expand_retarget(program.drop_last(), at, target);
        assert(changed.drop_last() =~= program.drop_last().update(at, entry));
    }
}

/// A fully collapsed program that is not empty stands for at least one
/// command, and the last of them is the command of its last entry.
proof fn lemma_expand_last(program: Seq<CollapsedCommands>)
    requires
        fully_collapsed(program),
        program.len() > 0,
    ensures
        expand(program).len() >= run_of(program.last()).len() > 0,
        expand(program).last() == program.last().command,
        expand(program) == expand(program.drop_last()) + run_of(program.last()),
        fully_collapsed(program.drop_last()),
{
    let at = program.len() - 1;
    assert(starts_run(program, at));
    assert forall|i: int| 0 <= i < program.drop_last().len() implies #[trigger] starts_run(
        program.drop_last(),
        i,
    ) by {
        assert(starts_run(program, i));
    }
}

/// Two fully collapsed programs that stand for the same commands have the
/// same entries, but for what their brackets record.
pub proof fn lemma_runs_are_unique(first: Seq<CollapsedCommands>, second: Seq<CollapsedCommands>)
    requires
        fully_collapsed(first),
        fully_collapsed(second),
        expand(first) == expand(second),
    ensures
        first.len() == second.len(),
        forall|i: int| 0 <= i < first.len() ==> (#[trigger] first[i]).command == second[i].command,
        forall|i: int|
            0 <= i < first.len() && !first[i].command.is_loop() ==> (#[trigger] first[i]).amount
                == second[i].amount,
    decreases first.len(),
{
    if first.len() == 0 {
        if second.len() > 0 {
            lemma_expand_last(second);
        }
    } else {
        lemma_expand_last(first);
        if second.len() == 0 {
            assert(expand(second).len() == 0);
        } else {
            lemma_expand_last(second);
            let all = expand(first);
            let a = first.last();
            let b = second.last();
            let shorter = first.drop_last();
            let other = second.drop_last();
            assert(a.command == b.command);
            if !a.command.is_loop() && a.amount != b.amount {
                // The longer run reaches into what the other program has
                // before its last entry, which then ends with the same
                // command: that program could be merged further.
                if a.amount < b.amount {
                    let at = all.len() - a.amount - 1;
                    assert(expand(shorter).len() == all.len() - a.amount);
                    assert(expand(shorter).last() == all[at]);
                    assert(all[at] == run_of(b)[at - expand(other).len()]);
                    lemma_expand_last(shorter);
                    assert(shorter.last() == first[first.len() - 2]);
                    assert(starts_run(first, first.len() - 1));
                } else {
                    let at = all.len() - b.amount - 1;
                    assert(expand(other).len() == all.len() - b.amount);
                    assert(expand(other).last() == all[at]);
                    assert(all[at] == run_of(a)[at - expand(shorter).len()]);
                    lemma_expand_last(other);
                    assert(other.last() == second[second.len() - 2]);
                    assert(starts_run(second, second.len() - 1));
                }
                assert(false);
            }
            assert(run_of(a) =~= run_of(b));
            let cut = all.len() - run_of(a).len();
            assert(expand(shorter) =~= all.subrange(0, cut));
            assert(expand(other) =~= all.subrange(0, cut));
            lemma_runs_are_unique(shorter, other);
            assert forall|i: int| 0 <= i < first.len() implies (#[trigger] first[i]).command
                == second[i].command by {
                if i < shorter.len() {
                    assert(shorter[i].command == other[i].command);
                }
            }
            assert forall|i: int|
                0 <= i < first.len() && !first[i].command.is_loop() implies (
            #[trigger] first[i]).amount == second[i].amount by {
                if i < shorter.len() {
                    assert(shorter[i].amount == other[i].amount);
                }
            }
        }
    }
}

/// There is one program for a text: two fully collapsed programs with
/// linked brackets that stand for the same commands are equal.
pub proof fn lemma_program_is_unique(first: Seq<CollapsedCommands>, second: Seq<CollapsedCommands>)
    requires
        fully_collapsed(first),
        fully_collapsed(second),
        linked(shape(first), targets(first)),
        linked(shape(second), targets(second)),
        expand(first) == expand(second),
    ensures
        first == second,
{
    lemma_runs_are_unique(first, second);
    let steps = shape(first);
    assert(steps =~= shape(second));
    assert forall|i: int| 0 <= i < first.len() implies first[i] == second[i] by {
        assert(first[i].command == second[i].command);
        if first[i].command == Command::LeftLoop {
            assert(steps[i] == 1);
            lemma_matching_is_unique(steps, i, targets(first)[i], i, targets(second)[i]);
        } else if first[i].command == Command::RightLoop {
            assert(steps[i] == -1);
            lemma_matching_is_unique(steps, targets(first)[i], i, targets(second)[i], i);
        } else {
            assert(first[i].amount == second[i].amount);
        }
    }
    assert(first =~= second);
}

/// The open brackets that the parser still has to close, as positions.
pub open spec fn positions(stack: Seq<usize>) -> Seq<int> {
    stack.map_values(|index: usize| index as int)
}

/// What the parser has established after reading the commands `done`: the
/// program stands for exactly those commands, is fully collapsed, and has
/// its brackets linked as far as they are closed, with the open ones on the
/// stack.
pub closed spec fn parsed_so_far(
    program: Seq<CollapsedCommands>,
    stack: Seq<usize>,
    done: Seq<Command>,
) -> bool {
    &&& expand(program) == done
    &&& fully_collapsed(program)
    &&& linking(shape(program), targets(program), positions(stack))
    &&& never_negative(steps_of(done))
    &&& depth(steps_of(done), done.len() as int) == stack.len()
    &&& program.len() <= done.len()
    &&& forall|i: int| 0 <= i < program.len() ==> (#[trigger] program[i]).amount <= done.len()
}

/// Before anything is read, nothing is parsed.
proof fn lemma_parse_start()
    ensures
        parsed_so_far(Seq::empty(), Seq::empty(), Seq::empty()),
{
    lemma_linking_start();
    assert(shape(Seq::empty()) =~= Seq::<int>::empty());
    assert(targets(Seq::empty()) =~= Seq::<int>::empty());
    assert(positions(Seq::empty()) =~= Seq::<int>::empty());
}

/// Reading one more command moves the depth of what was read by its step.
proof fn lemma_steps_push(done: Seq<Command>, command: Command)
    ensures
        steps_of(done.push(command)) == steps_of(done).push(step_of(command)),
        depth(steps_of(done.push(command)), done.len() as int + 1) == depth(
            steps_of(done),
            done.len() as int,
        ) + step_of(command),
        forall|k: int|
            k <= done.len() ==> #[trigger] depth(steps_of(done.push(command)), k) == depth(
                steps_of(done),
                k,
            ),
{
    assert(steps_of(done.push(command)) =~= steps_of(done).push(step_of(command)));
    lemma_depth_push(steps_of(done), step_of(command));
}

/// A program stays fully collapsed when it grows at its end by entries that
/// start a run, while the entries before keep their commands and count no
/// less.
proof fn lemma_runs_kept(before: Seq<CollapsedCommands>, after: Seq<CollapsedCommands>)
    requires
        fully_collapsed(before),
        before.len() <= after.len(),
        forall|i: int| 0 <= i < before.len() ==> (#[trigger] after[i]).command == before[i].command,
        forall|i: int|
            0 <= i < before.len() && !before[i].command.is_loop() ==> (#[trigger] after[i]).amount
                >= before[i].amount,
        forall|i: int| before.len() <= i < after.len() ==> #[trigger] starts_run(after, i),
    ensures
        fully_collapsed(after),
{
    assert forall|i: int| 0 <= i < after.len() implies #[trigger] starts_run(after, i) by {
        if i < before.len() {
            assert(starts_run(before, i));
            assert(after[i].command == before[i].command);
            if i > 0 {
                assert(after[i - 1].command == before[i - 1].command);
            }
        }
    }
}

/// At `[` the parser pushes the index of a new `LeftLoop` entry.
proof fn lemma_parse_open(before: Seq<CollapsedCommands>, stack: Seq<usize>, done: Seq<Command>)
    requires
        parsed_so_far(before, stack, done),
        before.len() <= usize::MAX,
    ensures
        parsed_so_far(
            before.push((CollapsedCommands { command: Command::LeftLoop, amount: 1 })),
            stack.push(before.len() as usize),
            done.push(Command::LeftLoop),
        ),
{
    let entry = CollapsedCommands { command: Command::LeftLoop, amount: 1 };
    let after = before.push(entry);
    lemma_steps_push(done, Command::LeftLoop);
    lemma_linking_open(shape(before), targets(before), positions(stack), 1);
    assert(shape(after) =~= shape(before).push(1));
    assert(targets(after) =~= targets(before).push(1));
    assert(positions(stack.push(before.len() as usize)) =~= positions(stack).push(
        before.len() as int,
    ));
    lemma_expand_push(before, entry);
    assert(expand(after) =~= done.push(Command::LeftLoop));
    assert(starts_run(after, before.len() as int));
    lemma_runs_kept(before, after);
}

/// At `]` with a loop open, the parser pops the index of its `LeftLoop`,
/// which is an entry of the program.
proof fn lemma_parse_close_top(
    before: Seq<CollapsedCommands>,
    stack: Seq<usize>,
    done: Seq<Command>,
)
    requires
        parsed_so_far(before, stack, done),
        stack.len() > 0,
    ensures
        stack.last() < before.len(),
        before[stack.last() as int].command == Command::LeftLoop,
{
    assert(positions(stack).last() == stack.last());
    lemma_linking_close(shape(before), targets(before), positions(stack));
    assert(shape(before)[stack.last() as int] == 1);
}

/// At `]` with a loop open, the parser lets the `LeftLoop` on top of the
/// stack record the index of a new `RightLoop` entry, which records the
/// index of that `LeftLoop`.
proof fn lemma_parse_close(before: Seq<CollapsedCommands>, stack: Seq<usize>, done: Seq<Command>)
    requires
        parsed_so_far(before, stack, done),
        stack.len() > 0,
        before.len() <= usize::MAX,
    ensures
        parsed_so_far(
            before.update(
                stack.last() as int,
                (CollapsedCommands { command: Command::LeftLoop, amount: before.len() as usize }),
            ).push((CollapsedCommands { command: Command::RightLoop, amount: stack.last() })),
            stack.drop_last(),
            done.push(Command::RightLoop),
        ),
{
    let open = stack.last();
    let close = before.len() as usize;
    lemma_parse_close_top(before, stack, done);
    let opener = CollapsedCommands { command: Command::LeftLoop, amount: close };
    let closer = CollapsedCommands { command: Command::RightLoop, amount: open };
    let relinked = before.update(open as int, opener);
    let after = relinked.push(closer);
    lemma_steps_push(done, Command::RightLoop);
    assert(positions(stack).last() == open);
    lemma_linking_close(shape(before), targets(before), positions(stack));
    lemma_linking_facts(shape(before), targets(before), positions(stack));
    assert(shape(after) =~= shape(before).push(-1));
    assert(targets(after) =~= targets(before).update(open as int, close as int).push(open as int));
    assert(positions(stack.drop_last()) =~= positions(stack).drop_last());
    lemma_expand_retarget(before, open as int, close);
    lemma_expand_push(relinked, closer);
    assert(expand(after) =~= done.push(Command::RightLoop));
    assert(starts_run(after, before.len() as int));
    lemma_runs_kept(before, after);
    assert forall|k: int| 0 <= k <= done.len() + 1 implies depth(
        steps_of(done.push(Command::RightLoop)),
        k,
    ) >= 0 by {
        if k <= done.len() {
            assert(depth(steps_of(done), k) >= 0);
        }
    }
}

/// At a command that repeats the last entry's, the parser counts one more
/// there.
proof fn lemma_parse_count(before: Seq<CollapsedCommands>, stack: Seq<usize>, done: Seq<Command>)
    requires
        parsed_so_far(before, stack, done),
        before.len() > 0,
        !before.last().command.is_loop(),
        done.len() < usize::MAX,
    ensures
        before.last().amount < usize::MAX,
        parsed_so_far(
            before.update(
                before.len() - 1,
                (CollapsedCommands {
                    command: before.last().command,
                    amount: (before.last().amount + 1) as usize,
                }),
            ),
            stack,
            done.push(before.last().command),
        ),
{
    let last = before.last();
    let command = last.command;
    let at = before.len() - 1;
    assert(before[at].amount <= done.len());
    let grown = CollapsedCommands { command, amount: (last.amount + 1) as usize };
    let after = before.update(at, grown);
    lemma_steps_push(done, command);
    lemma_linking_retarget(shape(before), targets(before), positions(stack), at, last.amount + 1);
    assert(shape(after) =~= shape(before));
    assert(targets(after) =~= targets(before).update(at, last.amount + 1));
    lemma_expand_count(before);
    lemma_runs_kept(before, after);
    assert forall|k: int| 0 <= k <= done.len() + 1 implies depth(steps_of(done.push(command)), k)
        >= 0 by {
        if k <= done.len() {
            assert(depth(steps_of(done), k) >= 0);
        }
    }
}

/// At a command that is no bracket and differs from the last entry's, the
/// parser starts a new entry that counts one.
proof fn lemma_parse_run(
    before: Seq<CollapsedCommands>,
    stack: Seq<usize>,
    done: Seq<Command>,
    command: Command,
)
    requires
        parsed_so_far(before, stack, done),
        !command.is_loop(),
        before.len() > 0 ==> before.last().command != command,
    ensures
        parsed_so_far(
            before.push((CollapsedCommands { command, amount: 1 })),
            stack,
            done.push(command),
        ),
{
    let entry = CollapsedCommands { command, amount: 1 };
    let after = before.push(entry);
    lemma_steps_push(done, command);
    lemma_linking_other(shape(before), targets(before), positions(stack), 1);
    assert(shape(after) =~= shape(before).push(0));
    assert(targets(after) =~= targets(before).push(1));
    lemma_expand_push(before, entry);
    assert(run_of(entry) =~= seq![command]);
    assert(expand(after) =~= done.push(command));
    assert(starts_run(after, before.len() as int));
    lemma_runs_kept(before, after);
    assert forall|k: int| 0 <= k <= done.len() + 1 implies depth(steps_of(done.push(command)), k)
        >= 0 by {
        if k <= done.len() {
            assert(depth(steps_of(done), k) >= 0);
        }
    }
}

/// At `]` with no loop open, the text read so far closes a loop that was
/// never opened, and so does every text that starts with it.
proof fn lemma_parse_unopened(
    program: Seq<CollapsedCommands>,
    stack: Seq<usize>,
    done: Seq<Command>,
    ahead: Seq<Command>,
)
    requires
        parsed_so_far(program, stack, done),
        stack.len() == 0,
    ensures
        closes_unopened(steps_of(done.push(Command::RightLoop) + ahead)),
{
    let read = done.push(Command::RightLoop);
    let full = steps_of(read + ahead);
    let k = done.len() as int + 1;
    lemma_steps_push(done, Command::RightLoop);
    lemma_depth_agrees(full, steps_of(read), k);
    assert(depth(full, k) < 0);
}

/// At the end of the text, the program is complete if no loop is open, and
/// the text leaves a loop open otherwise.
proof fn lemma_parse_end(program: Seq<CollapsedCommands>, stack: Seq<usize>, done: Seq<Command>)
    requires
        parsed_so_far(program, stack, done),
    ensures
        expand(program) == done,
        fully_collapsed(program),
        stack.len() > 0 ==> leaves_open(steps_of(done)),
        stack.len() == 0 ==> balanced(steps_of(done)) && balanced(shape(program)) && linked(
            shape(program),
            targets(program),
        ) && loops_paired(program),
{
    if stack.len() == 0 {
        assert(positions(stack).len() == 0);
        lemma_linking_done(shape(program), targets(program), positions(stack));
        lemma_linked_loops_are_paired(program);
    }
}

/// The command for an instruction symbol.
fn decode(symbol: char) -> (command: Command)
    requires
        is_symbol(symbol),
    ensures
        command == command_of(symbol),
{
    match symbol {
        '+' => Command::Plus,
        '-' => Command::Minus,
        '[' => Command::LeftLoop,
        ']' => Command::RightLoop,
        '>' => Command::Right,
        '<' => Command::Left,
        '.' => Command::Output,
        _ => Command::Input,
    }
}

/// Parses source text into a collapsed program.
///
/// Characters that are no instruction symbols are skipped. Consecutive equal
/// commands other than brackets are merged into one entry that counts them.
/// Each bracket becomes an entry of its own that records the index of its
/// partner. Text whose brackets do not pair up is rejected.
pub fn parse_input(input: &str) -> (parsed: Result<Vec<CollapsedCommands>, StructuralError>)
    ensures
        match parsed {
            Ok(program) => {
                &&& balanced(steps_of(source_commands(input@)))
                &&& expand(program@) == source_commands(input@)
                &&& fully_collapsed(program@)
                &&& balanced(shape(program@))
                &&& linked(shape(program@), targets(program@))
                &&& loops_paired(program@)
            },
            Err(StructuralError::UnmatchedClosingBracket) => closes_unopened(
                steps_of(source_commands(input@)),
            ),
            Err(StructuralError::UnmatchedOpeningBracket) => leaves_open(
                steps_of(source_commands(input@)),
            ),
        },
{
    let mut lexer = Lexer::new(input);
    let mut commands: Vec<CollapsedCommands> = Vec::new();
    let mut loop_stack: Vec<usize> = Vec::new();
    let ghost source = source_commands(input@);
    let ghost mut done: Seq<Command> = Seq::empty();
    proof {
        lemma_parse_start();
        assert(source =~= done + source_commands(lexer.chars.remaining()));
        input@.lemma_filter_len(|c: char| is_symbol(c));
    }
    loop
        invariant
            lexer.well_formed(),
            source == source_commands(input@),
            source.len() <= usize::MAX,
            source == done + source_commands(lexer.chars.remaining()),
            parsed_so_far(commands@, loop_stack@, done),
        decreases lexer.measure(),
    {
        let ghost rest = lexer.chars.remaining();
        let ghost before = commands@;
        let ghost stack_before = loop_stack@;
        match lexer.next_char() {
            None => {
                proof {
                    assert(source_commands(rest) =~= Seq::<Command>::empty());
                    assert(source =~= done);
                    lemma_parse_end(commands@, loop_stack@, done);
                }
                if loop_stack.len() > 0 {
                    return Err(StructuralError::UnmatchedOpeningBracket);
                }
                return Ok(commands);
            },
            Some(current_char) => {
                let command = decode(current_char);
                let ghost ahead = source_commands(lexer.chars.remaining());
                proof {
                    assert(source_commands(rest) =~= seq![command] + ahead);
                    assert(source =~= done.push(command) + ahead);
                }
                match command {
                    Command::LeftLoop => {
                        proof {
                            lemma_parse_open(before, stack_before, done);
                        }
                        loop_stack.push(commands.len());
                        commands.push(CollapsedCommands { command, amount: 1 });
                    },
                    Command::RightLoop => {
                        match loop_stack.pop() {
                            None => {
                                proof {
                                    lemma_parse_unopened(before, stack_before, done, ahead);
                                }
                                return Err(StructuralError::UnmatchedClosingBracket);
                            },
                            Some(open_loop_index) => {
                                proof {
                                    lemma_parse_close_top(before, stack_before, done);
                                    lemma_parse_close(before, stack_before, done);
                                    assert(loop_stack@ =~= stack_before.drop_last());
                                }
                                let close_index = commands.len();
                                commands[open_loop_index].amount = close_index;
                                commands.push(CollapsedCommands { command, amount: open_loop_index });
                                proof {
                                    assert(commands@ =~= before.update(
                                        open_loop_index as int,
                                        (CollapsedCommands {
                                            command: Command::LeftLoop,
                                            amount: close_index,
                                        }),
                                    ).push(
                                        (CollapsedCommands {
                                            command: Command::RightLoop,
                                            amount: open_loop_index,
                                        }),
                                    ));
                                }
                            },
                        }
                    },
                    _ => {
                        let count = commands.len();
                        if count > 0 && commands[count - 1].command == command {
                            proof {
                                lemma_parse_count(before, stack_before, done);
                            }
                            commands[count - 1].amount += 1;
                            proof {
                                assert(commands@ =~= before.update(
                                    count - 1,
                                    (CollapsedCommands {
                                        command,
                                        amount: (before.last().amount + 1) as usize,
                                    }),
                                ));
                            }
                        } else {
                            proof {
                                lemma_parse_run(before, stack_before, done, command);
                            }
                            commands.push(CollapsedCommands { command, amount: 1 });
                        }
                    },
                }
                proof {
                    done = done.push(command);
                }
            },
        }
    }
}

} // verus!
