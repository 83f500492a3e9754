//! The tape machine: a circular tape of byte cells, a cursor, a program
//! counter and an output buffer, driven one instruction at a time.

use crate::command::{CompiledCollapsedCommand, CompiledCommand};
use vstd::prelude::*;

verus! {

/// The number of cells on the tape.
pub const TAPE_LENGTH: usize = 30_000;

/// Where the cursor stands when the machine starts: the middle of the tape.
pub const START_CURSOR: usize = 15_000;

/// What the machine is doing.
#[derive(Clone, Copy, PartialEq, Eq, Structural, Debug)]
pub enum Status {
    /// The next instruction can be executed.
    Running,
    /// The next instruction is `Input`: the machine waits for a byte.
    AwaitingInput,
    /// The program counter has passed the end of the program.
    Halted,
}

/// The state of a tape machine, as mathematics.
pub struct MachineState {
    /// The cells of the tape.
    pub cells: Seq<u8>,
    /// The index of the current cell.
    pub cursor: int,
    /// The index of the next instruction.
    pub counter: int,
    /// The bytes written so far.
    pub output: Seq<u8>,
}

impl MachineState {
    /// The value of the current cell.
    pub open spec fn cell(self) -> u8 {
        self.cells[self.cursor]
    }

    /// This state with `value` in the current cell.
    pub open spec fn with_cell(self, value: u8) -> MachineState {
        MachineState { cells: self.cells.update(self.cursor, value), ..self }
    }

    /// This state with the program counter at `counter`.
    pub open spec fn at(self, counter: int) -> MachineState {
        MachineState { counter, ..self }
    }
}

/// The state in which every run starts: all cells zero, the cursor in the
/// middle of the tape, the program counter at the first instruction, nothing
/// written.
pub open spec fn initial_state() -> MachineState {
    MachineState {
        cells: Seq::new(TAPE_LENGTH as nat, |i: int| 0u8),
        cursor: START_CURSOR as int,
        counter: 0,
        output: Seq::empty(),
    }
}

/// A state that a machine running `program` can be in.
pub open spec fn valid(program: Seq<CompiledCollapsedCommand>, state: MachineState) -> bool {
    &&& state.cells.len() == TAPE_LENGTH
    &&& 0 <= state.cursor < TAPE_LENGTH
    &&& 0 <= state.counter <= program.len()
}

/// Cell arithmetic: `value` modulo 256.
pub open spec fn wrapped_cell(value: int) -> u8 {
    (value % 256) as u8
}

/// Cursor arithmetic: `position` modulo the length of the tape.
pub open spec fn wrapped_cursor(position: int) -> int {
    position % (TAPE_LENGTH as int)
}

/// Where the program counter stands after a jump to `target`: behind the
/// instruction at `target`, or at the end of the program if there is no
/// such instruction.
pub open spec fn landing(target: int, length: int) -> int {
    if target < length {
        target + 1
    } else {
        length
    }
}

/// The program counter has passed the last instruction.
pub open spec fn halted(program: Seq<CompiledCollapsedCommand>, state: MachineState) -> bool {
    state.counter >= program.len()
}

/// The next instruction is `Input`.
pub open spec fn awaits_input(program: Seq<CompiledCollapsedCommand>, state: MachineState) -> bool {
    &&& 0 <= state.counter < program.len()
    &&& program[state.counter].command == CompiledCommand::Input
}

/// What the machine is doing in `state`.
pub open spec fn status_of(program: Seq<CompiledCollapsedCommand>, state: MachineState) -> Status {
    if halted(program, state) {
        Status::Halted
    } else if awaits_input(program, state) {
        Status::AwaitingInput
    } else {
        Status::Running
    }
}

/// The state after the next instruction of `program` is executed in
/// `state`. A machine that has halted or that waits for input stays as it
/// is.
pub open spec fn executed(program: Seq<CompiledCollapsedCommand>, state: MachineState) -> MachineState {
    if state.counter < 0 || halted(program, state) {
        state
    } else {
        let entry = program[state.counter];
        let amount = entry.amount as int;
        let next = state.counter + 1;
        let jump = landing(amount, program.len() as int);
        match entry.command {
            CompiledCommand::Plus => state.with_cell(wrapped_cell(state.cell() + amount)).at(next),
            CompiledCommand::Minus => state.with_cell(wrapped_cell(state.cell() - amount)).at(next),
            CompiledCommand::Right => MachineState {
                cursor: wrapped_cursor(state.cursor + amount),
                counter: next,
                ..state
            },
            CompiledCommand::Left => MachineState {
                cursor: wrapped_cursor(state.cursor - amount),
                counter: next,
                ..state
            },
            CompiledCommand::LeftLoop => state.at(
                if state.cell() == 0 {
                    jump
                } else {
                    next
                },
            ),
            CompiledCommand::RightLoop => state.at(
                if state.cell() != 0 {
                    jump
                } else {
                    next
                },
            ),
            CompiledCommand::SetZero => state.with_cell(0).at(next),
            CompiledCommand::Output => MachineState {
                output: state.output + Seq::new(amount as nat, |i: int| state.cell()),
                counter: next,
                ..state
            },
            CompiledCommand::Input => state,
        }
    }
}

/// The state after a machine that waits for input in `state` is given
/// `byte`: the byte is in the current cell and the `Input` instruction is
/// done. A machine that does not wait for input stays as it is.
pub open spec fn supplied(
    program: Seq<CompiledCollapsedCommand>,
    state: MachineState,
    byte: u8,
) -> MachineState {
    if awaits_input(program, state) {
        state.with_cell(byte).at(state.counter + 1)
    } else {
        state
    }
}

/// Executing an instruction or supplying a byte leads from a valid state to
/// a valid state.
pub proof fn lemma_valid_is_kept(
    program: Seq<CompiledCollapsedCommand>,
    state: MachineState,
    byte: u8,
)
    requires
        valid(program, state),
    ensures
        valid(program, executed(program, state)),
        valid(program, supplied(program, state, byte)),
{
}

/// A machine that has halted or waits for input does not move by executing.
pub proof fn lemma_executed_when_idle(program: Seq<CompiledCollapsedCommand>, state: MachineState)
    requires
        status_of(program, state) != Status::Running,
    ensures
        executed(program, state) == state,
{
}

/// The state after `count` instructions are executed one after another,
/// starting in `state`.
pub open spec fn executed_times(
    program: Seq<CompiledCollapsedCommand>,
    state: MachineState,
    count: nat,
) -> MachineState
    decreases count,
{
    if count == 0 {
        state
    } else {
        executed_times(program, executed(program, state), (count - 1) as nat)
    }
}

/// The loop `LeftLoop`, `Minus` with amount 1, `RightLoop` stands at `at`,
/// with its two brackets recording each other.
pub open spec fn clearing_loop_at(program: Seq<CompiledCollapsedCommand>, at: int) -> bool {
    &&& 0 <= at
    &&& at + 2 < program.len()
    &&& program[at].command == CompiledCommand::LeftLoop
    &&& program[at].amount == at + 2
    &&& program[at + 1].command == CompiledCommand::Minus
    &&& program[at + 1].amount == 1
    &&& program[at + 2].command == CompiledCommand::RightLoop
    &&& program[at + 2].amount == at
}

/// Inside a clearing loop, with the cell at `c > 0`, the machine needs `2 c`
/// instructions to bring the cell to zero and leave the loop.
proof fn lemma_clearing_loop_body(
    program: Seq<CompiledCollapsedCommand>,
    state: MachineState,
    at: int,
)
    requires
        valid(program, state),
        clearing_loop_at(program, at),
        state.counter == at + 1,
        state.cell() > 0,
    ensures
        executed_times(program, state, 2 * (state.cell() as nat)) == state.with_cell(0).at(at + 3),
    decreases state.cell(),
{
    let after_minus = executed(program, state);
    let lower = (state.cell() - 1) as u8;
    assert(after_minus == state.with_cell(lower).at(at + 2));
    assert(after_minus.cell() == lower);
    let after_close = executed(program, after_minus);
    reveal_with_fuel(executed_times, 3);
    if lower == 0 {
        assert(after_close == after_minus.at(at + 3));
        assert(after_close.cells =~= state.with_cell(0).cells);
    } else {
        assert(after_close == after_minus.at(at + 1));
        lemma_clearing_loop_body(program, after_close, at);
        assert(after_close.with_cell(0).cells =~= state.with_cell(0).cells);
    }
}

/// `SetZero` does what the clearing loop does: from a cell that holds `c`,
/// the loop takes `2 c + 1` instructions to end with the cell at zero and
/// the program counter behind the loop. Nothing else has changed then.
pub proof fn lemma_clearing_loop_clears(
    program: Seq<CompiledCollapsedCommand>,
    state: MachineState,
    at: int,
)
    requires
        valid(program, state),
        clearing_loop_at(program, at),
        state.counter == at,
    ensures
        executed_times(program, state, 2 * (state.cell() as nat) + 1) == state.with_cell(0).at(
            at + 3,
        ),
{
    let entered = executed(program, state);
    reveal_with_fuel(executed_times, 2);
    if state.cell() == 0 {
        assert(entered == state.at(at + 3));
        assert(entered.cells =~= state.with_cell(0).cells);
    } else {
        assert(entered == state.at(at + 1));
        lemma_clearing_loop_body(program, entered, at);
    }
}

/// Cell arithmetic wraps around: subtracting what was added gives the cell
/// its old value back, whatever the amount.
pub proof fn lemma_minus_undoes_plus(cell: u8, amount: int)
    ensures
        wrapped_cell(wrapped_cell(cell + amount) - amount) == cell,
        wrapped_cell(wrapped_cell(cell - amount) + amount) == cell,
{
}

/// The tape is circular: moving left by what was moved right leads back to
/// the same cell, whatever the amount.
pub proof fn lemma_left_undoes_right(cursor: int, amount: int)
    requires
        0 <= cursor < TAPE_LENGTH,
    ensures
        0 <= wrapped_cursor(cursor + amount) < TAPE_LENGTH,
        wrapped_cursor(wrapped_cursor(cursor + amount) - amount) == cursor,
        wrapped_cursor(wrapped_cursor(cursor - amount) + amount) == cursor,
{
}

/// `cell + amount` modulo 256.
fn cell_plus(cell: u8, amount: usize) -> (sum: u8)
    ensures
        sum == wrapped_cell(cell + amount),
{
    cell.wrapping_add((amount % 256) as u8)
}

/// `cell - amount` modulo 256.
fn cell_minus(cell: u8, amount: usize) -> (difference: u8)
    ensures
        difference == wrapped_cell(cell - amount),
{
    cell.wrapping_sub((amount % 256) as u8)
}

/// `cursor + amount` modulo the length of the tape.
fn cursor_right(cursor: usize, amount: usize) -> (position: usize)
    requires
        cursor < TAPE_LENGTH,
    ensures
        position == wrapped_cursor(cursor + amount),
{
    (cursor + amount % TAPE_LENGTH) % TAPE_LENGTH
}

/// `cursor - amount` modulo the length of the tape.
fn cursor_left(cursor: usize, amount: usize) -> (position: usize)
    requires
        cursor < TAPE_LENGTH,
    ensures
        position == wrapped_cursor(cursor - amount),
{
    (cursor + TAPE_LENGTH - amount % TAPE_LENGTH) % TAPE_LENGTH
}

/// Appends `count` copies of `byte` to `output`.
fn write_repeated(output: &mut Vec<u8>, byte: u8, count: usize)
    ensures
        final(output)@ == old(output)@ + Seq::new(count as nat, |i: int| byte),
{
    let ghost before = output@;
    let mut written: usize = 0;
    proof {
        assert(output@ =~= before + Seq::new(0, |i: int| byte));
    }
    while written < count
        invariant
            written <= count,
            output@ == before + Seq::new(written as nat, |i: int| byte),
        decreases count - written,
    {
        output.push(byte);
        written = written + 1;
        proof {
            assert(output@ =~= before + Seq::new(written as nat, |i: int| byte));
        }
    }
}

/// A tape machine loaded with a program.
///
/// The machine executes one instruction per call of [`Machine::step`]. At an
/// `Input` instruction it waits until a byte is handed to it with
/// [`Machine::supply`].
pub struct Machine {
    program: Vec<CompiledCollapsedCommand>,
    memory: Vec<u8>,
    memory_index: usize,
    index: usize,
    output: Vec<u8>,
}

impl View for Machine {
    type V = MachineState;

    closed spec fn view(&self) -> MachineState {
        MachineState {
            cells: self.memory@,
            cursor: self.memory_index as int,
            counter: self.index as int,
            output: self.output@,
        }
    }
}

impl Machine {
    /// The program that the machine runs.
    pub closed spec fn program(&self) -> Seq<CompiledCollapsedCommand> {
        self.program@
    }

    /// The machine is in a state that its program can be run from. Every
    /// machine made by [`Machine::new`] is, and stays so.
    pub open spec fn well_formed(&self) -> bool {
        valid(self.program(), self@)
    }

    /// A machine in the initial state, loaded with `program`.
    pub fn new(program: Vec<CompiledCollapsedCommand>) -> (machine: Machine)
        ensures
            machine.program() == program@,
            machine@ == initial_state(),
            machine.well_formed(),
    {
        let mut memory: Vec<u8> = Vec::new();
        let mut filled: usize = 0;
        while filled < TAPE_LENGTH
            invariant
                filled <= TAPE_LENGTH,
                memory@ == Seq::new(filled as nat, |i: int| 0u8),
            decreases TAPE_LENGTH - filled,
        {
            memory.push(0);
            filled = filled + 1;
            proof {
                assert(memory@ =~= Seq::new(filled as nat, |i: int| 0u8));
            }
        }
        Machine { program, memory, memory_index: START_CURSOR, index: 0, output: Vec::new() }
    }

    /// What the machine is doing.
    pub fn status(&self) -> (status: Status)
        requires
            self.well_formed(),
        ensures
            status == status_of(self.program(), self@),
    {
        if self.index >= self.program.len() {
            Status::Halted
        } else if self.program[self.index].command == CompiledCommand::Input {
            Status::AwaitingInput
        } else {
            Status::Running
        }
    }

    /// Executes the next instruction, unless the machine has halted or waits
    /// for input, and says what the machine is doing then.
    pub fn step(&mut self) -> (status: Status)
        requires
            old(self).well_formed(),
        ensures
            final(self).well_formed(),
            final(self).program() == old(self).program(),
            final(self)@ == executed(old(self).program(), old(self)@),
            status == status_of(final(self).program(), final(self)@),
    {
        if self.index < self.program.len() {
            let entry = self.program[self.index];
            let cell = self.memory[self.memory_index];
            let length = self.program.len();
            let jump = if entry.amount < length {
                entry.amount + 1
            } else {
                length
            };
            match entry.command {
                CompiledCommand::Plus => {
                    self.memory.set(self.memory_index, cell_plus(cell, entry.amount));
                    self.index = self.index + 1;
                },
                CompiledCommand::Minus => {
                    self.memory.set(self.memory_index, cell_minus(cell, entry.amount));
                    self.index = self.index + 1;
                },
                CompiledCommand::Right => {
                    self.memory_index = cursor_right(self.memory_index, entry.amount);
                    self.index = self.index + 1;
                },
                CompiledCommand::Left => {
                    self.memory_index = cursor_left(self.memory_index, entry.amount);
                    self.index = self.index + 1;
                },
                CompiledCommand::LeftLoop => {
                    if cell == 0 {
                        self.index = jump;
                    } else {
                        self.index = self.index + 1;
                    }
                },
                CompiledCommand::RightLoop => {
                    if cell != 0 {
                        self.index = jump;
                    } else {
                        self.index = self.index + 1;
                    }
                },
                CompiledCommand::SetZero => {
                    self.memory.set(self.memory_index, 0);
                    self.index = self.index + 1;
                },
                CompiledCommand::Output => {
                    write_repeated(&mut self.output, cell, entry.amount);
                    self.index = self.index + 1;
                },
                CompiledCommand::Input => {},
            }
        }
        self.status()
    }

    /// Hands `byte` to a machine that waits for input: the byte goes into
    /// the current cell, and the machine moves on. Says whether the machine
    /// was waiting; one that was not stays as it is.
    pub fn supply(&mut self, byte: u8) -> (taken: bool)
        requires
            old(self).well_formed(),
        ensures
            final(self).well_formed(),
            final(self).program() == old(self).program(),
            final(self)@ == supplied(old(self).program(), old(self)@, byte),
            taken == awaits_input(old(self).program(), old(self)@),
    {
        if self.index < self.program.len() && self.program[self.index].command
            == CompiledCommand::Input {
            self.memory.set(self.memory_index, byte);
            self.index = self.index + 1;
            true
        } else {
            false
        }
    }

    /// The index of the current cell.
    pub fn cursor(&self) -> (cursor: usize)
        ensures
            cursor == self@.cursor,
    {
        self.memory_index
    }

    /// The value of the current cell.
    pub fn cell(&self) -> (value: u8)
        requires
            self.well_formed(),
        ensures
            value == self@.cell(),
    {
        self.memory[self.memory_index]
    }

    /// The bytes written so far.
    pub fn output(&self) -> (bytes: &Vec<u8>)
        ensures
            bytes@ == self@.output,
    {
        &self.output
    }

    /// Takes the machine apart for the bytes it has written.
    pub fn into_output(self) -> (bytes: Vec<u8>)
        ensures
            bytes@ == self@.output,
    {
        self.output
    }
}

} // verus!
