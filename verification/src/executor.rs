//! Running a program to its end: the machine is stepped until it halts, is
//! fed from a given sequence of input bytes, and what it wrote is returned
//! as text.

use crate::command::CompiledCollapsedCommand;
use crate::machine::{
    awaits_input, executed, halted, initial_state, supplied, Machine, MachineState, Status,
};
use vstd::prelude::*;
use vstd::utf8::{decode_utf8, valid_utf8};

verus! {

/// Why a run did not return text.
#[derive(Clone, Copy, PartialEq, Eq, Structural, Debug)]
pub enum ExecutionError {
    /// An `Input` instruction found no byte left to read.
    InputExhausted,
    /// The bytes that the program wrote are not valid UTF-8.
    InvalidEncoding,
    /// The program had not halted when the allowed number of instructions
    /// was used up.
    StepLimitReached,
}

/// How a run ends, as mathematics.
pub enum Outcome {
    /// The program halted, having written these bytes.
    Finished(Seq<u8>),
    /// An `Input` instruction found no byte left to read.
    InputExhausted,
    /// The program was still running after the allowed number of
    /// instructions.
    OutOfSteps,
}

/// How a run from `state` ends when `input` is what is left to read and at
/// most `limit` more instructions may be executed.
///
/// Halting and running out of input are noticed before the limit is: a
/// program that halts after exactly `limit` instructions finishes.
pub open spec fn run(
    program: Seq<CompiledCollapsedCommand>,
    state: MachineState,
    input: Seq<u8>,
    limit: nat,
) -> Outcome
    decreases limit,
{
    if halted(program, state) {
        Outcome::Finished(state.output)
    } else if awaits_input(program, state) && input.len() == 0 {
        Outcome::InputExhausted
    } else if limit == 0 {
        Outcome::OutOfSteps
    } else if awaits_input(program, state) {
        run(program, supplied(program, state, input[0]), input.skip(1), (limit - 1) as nat)
    } else {
        run(program, executed(program, state), input, (limit - 1) as nat)
    }
}

/// A run that ends within the limit ends the same way under any larger
/// limit.
pub proof fn lemma_run_is_stable(
    program: Seq<CompiledCollapsedCommand>,
    state: MachineState,
    input: Seq<u8>,
    limit: nat,
    more: nat,
)
    requires
        run(program, state, input, limit) != Outcome::OutOfSteps,
    ensures
        run(program, state, input, limit + more) == run(program, state, input, limit),
    decreases limit,
{
    if halted(program, state) {
    } else if awaits_input(program, state) && input.len() == 0 {
    } else if awaits_input(program, state) {
        lemma_run_is_stable(
            program,
            supplied(program, state, input[0]),
            input.skip(1),
            (limit - 1) as nat,
            more,
        );
    } else {
        lemma_run_is_stable(program, executed(program, state), input, (limit - 1) as nat, more);
    }
}

/// The text that a program has written, if its bytes are valid UTF-8.
pub fn decode_output(output: Vec<u8>) -> (text: Result<String, ExecutionError>)
    ensures
        valid_utf8(output@) ==> (text matches Ok(decoded) && decoded@ == decode_utf8(output@)),
        !valid_utf8(output@) ==> text == Err::<String, ExecutionError>(
            ExecutionError::InvalidEncoding,
        ),
{
    match String::from_utf8(output) {
        Ok(decoded) => Ok(decoded),
        Err(_) => Err(ExecutionError::InvalidEncoding),
    }
}

/// Runs `commands` on a fresh machine and returns the text it writes.
///
/// Each `Input` instruction reads the next byte of `input`. The run is
/// given up once `limit` instructions have been executed without the
/// program halting.
pub fn process_input(commands: Vec<CompiledCollapsedCommand>, input: &[u8], limit: usize) -> (result:
    Result<String, ExecutionError>)
    ensures
        match run(commands@, initial_state(), input@, limit as nat) {
            Outcome::Finished(bytes) => {
                &&& valid_utf8(bytes) ==> (result matches Ok(text) && text@ == decode_utf8(bytes))
                &&& !valid_utf8(bytes) ==> result == Err::<String, ExecutionError>(
                    ExecutionError::InvalidEncoding,
                )
            },
            Outcome::InputExhausted => result == Err::<String, ExecutionError>(
                ExecutionError::InputExhausted,
            ),
            Outcome::OutOfSteps => result == Err::<String, ExecutionError>(
                ExecutionError::StepLimitReached,
            ),
        },
{
    let ghost program = commands@;
    let mut machine = Machine::new(commands);
    let mut steps: usize = 0;
    let mut consumed: usize = 0;
    proof {
        assert(input@.skip(0) =~= input@);
    }
    loop
        invariant
            machine.well_formed(),
            machine.program() == program,
            program == commands@,
            steps <= limit,
            consumed <= input@.len(),
            run(program, initial_state(), input@, limit as nat) == run(
                program,
                machine@,
                input@.skip(consumed as int),
                (limit - steps) as nat,
            ),
        decreases limit - steps,
    {
        match machine.status() {
            Status::Halted => {
                return decode_output(machine.into_output());
            },
            Status::AwaitingInput => {
                if consumed >= input.len() {
                    return Err(ExecutionError::InputExhausted);
                }
                if steps >= limit {
                    return Err(ExecutionError::StepLimitReached);
                }
                proof {
                    assert(input@.skip(consumed as int)[0] == input@[consumed as int]);
                    assert(input@.skip(consumed as int).skip(1) =~= input@.skip(consumed + 1));
                }
                machine.supply(input[consumed]);
                consumed = consumed + 1;
            },
            Status::Running => {
                if steps >= limit {
                    return Err(ExecutionError::StepLimitReached);
                }
                machine.step();
            },
        }
        steps = steps + 1;
    }
}

} // verus!
