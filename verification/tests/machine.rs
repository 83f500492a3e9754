use bf_interpreter::machine::{START_CURSOR, TAPE_LENGTH};
use bf_interpreter::{CompiledCollapsedCommand, CompiledCommand, Machine, Status};

fn entry(command: CompiledCommand, amount: usize) -> CompiledCollapsedCommand {
    CompiledCollapsedCommand { command, amount }
}

fn run_to_rest(machine: &mut Machine) -> Status {
    let mut status = machine.status();
    let mut steps = 0;
    while status == Status::Running {
        status = machine.step();
        steps += 1;
        assert!(steps < 1_000_000);
    }
    status
}

#[test]
fn machine_starts_in_the_middle_of_a_zeroed_tape() {
    let machine = Machine::new(vec![entry(CompiledCommand::Plus, 1)]);
    assert_eq!(TAPE_LENGTH, 30_000);
    assert_eq!(START_CURSOR, 15_000);
    assert_eq!(machine.cursor(), 15_000);
    assert_eq!(machine.cell(), 0);
    assert_eq!(machine.output(), &Vec::<u8>::new());
    assert_eq!(machine.status(), Status::Running);
}

#[test]
fn machine_with_empty_program_has_halted() {
    let mut machine = Machine::new(vec![]);
    assert_eq!(machine.status(), Status::Halted);
    assert_eq!(machine.step(), Status::Halted);
    assert!(!machine.supply(7));
    assert_eq!(machine.cell(), 0);
}

#[test]
fn cell_wraps_from_255_to_0() {
    let mut machine = Machine::new(vec![
        entry(CompiledCommand::Plus, 255),
        entry(CompiledCommand::Plus, 1),
    ]);
    assert_eq!(machine.step(), Status::Running);
    assert_eq!(machine.cell(), 255);
    assert_eq!(machine.step(), Status::Halted);
    assert_eq!(machine.cell(), 0);
}

#[test]
fn cell_wraps_from_0_to_255() {
    let mut machine = Machine::new(vec![entry(CompiledCommand::Minus, 1)]);
    assert_eq!(machine.cell(), 0);
    assert_eq!(machine.step(), Status::Halted);
    assert_eq!(machine.cell(), 255);
}

#[test]
fn cell_arithmetic_is_modulo_256() {
    let mut machine = Machine::new(vec![
        entry(CompiledCommand::Plus, 256 + 65),
        entry(CompiledCommand::Minus, 512 + 66),
        entry(CompiledCommand::Plus, 200),
        entry(CompiledCommand::Plus, 100),
    ]);
    machine.step();
    assert_eq!(machine.cell(), 65);
    machine.step();
    assert_eq!(machine.cell(), 255);
    machine.step();
    assert_eq!(machine.cell(), 199);
    machine.step();
    assert_eq!(machine.cell(), 43);
}

#[test]
fn cursor_wraps_from_last_cell_to_first() {
    let mut machine = Machine::new(vec![
        entry(CompiledCommand::Right, 14_999),
        entry(CompiledCommand::Right, 1),
    ]);
    machine.step();
    assert_eq!(machine.cursor(), 29_999);
    machine.step();
    assert_eq!(machine.cursor(), 0);
}

#[test]
fn cursor_wraps_from_first_cell_to_last() {
    let mut machine = Machine::new(vec![
        entry(CompiledCommand::Left, 15_000),
        entry(CompiledCommand::Left, 1),
    ]);
    machine.step();
    assert_eq!(machine.cursor(), 0);
    machine.step();
    assert_eq!(machine.cursor(), 29_999);
}

#[test]
fn cursor_arithmetic_is_modulo_tape_length() {
    let mut machine = Machine::new(vec![
        entry(CompiledCommand::Right, 30_000),
        entry(CompiledCommand::Left, 60_000),
        entry(CompiledCommand::Right, 90_007),
        entry(CompiledCommand::Left, 45_007),
        entry(CompiledCommand::Left, usize::MAX),
        entry(CompiledCommand::Right, usize::MAX),
    ]);
    machine.step();
    assert_eq!(machine.cursor(), 15_000);
    machine.step();
    assert_eq!(machine.cursor(), 15_000);
    machine.step();
    assert_eq!(machine.cursor(), 15_007);
    machine.step();
    assert_eq!(machine.cursor(), 0);
    machine.step();
    let wrapped = (30_000 - usize::MAX % 30_000) % 30_000;
    assert_eq!(machine.cursor(), wrapped);
    machine.step();
    assert_eq!(machine.cursor(), 0);
}

#[test]
fn cells_keep_their_values_while_the_cursor_moves() {
    let mut machine = Machine::new(vec![
        entry(CompiledCommand::Plus, 7),
        entry(CompiledCommand::Right, 1),
        entry(CompiledCommand::Plus, 9),
        entry(CompiledCommand::Left, 1),
    ]);
    assert_eq!(run_to_rest(&mut machine), Status::Halted);
    assert_eq!(machine.cursor(), 15_000);
    assert_eq!(machine.cell(), 7);
}

#[test]
fn set_zero_clears_the_cell_and_moves_on_by_one() {
    let mut machine = Machine::new(vec![
        entry(CompiledCommand::Plus, 200),
        entry(CompiledCommand::SetZero, 1),
        entry(CompiledCommand::Output, 1),
    ]);
    machine.step();
    assert_eq!(machine.cell(), 200);
    assert_eq!(machine.step(), Status::Running);
    assert_eq!(machine.cell(), 0);
    assert_eq!(machine.step(), Status::Halted);
    assert_eq!(machine.output(), &vec![0u8]);
}

#[test]
fn output_writes_the_cell_amount_times() {
    let mut machine = Machine::new(vec![
        entry(CompiledCommand::Plus, 66),
        entry(CompiledCommand::Output, 3),
        entry(CompiledCommand::Output, 0),
    ]);
    assert_eq!(run_to_rest(&mut machine), Status::Halted);
    assert_eq!(machine.output(), &vec![66u8, 66, 66]);
    assert_eq!(machine.into_output(), vec![66u8, 66, 66]);
}

#[test]
fn left_loop_jumps_behind_its_partner_on_zero() {
    let mut machine = Machine::new(vec![
        entry(CompiledCommand::LeftLoop, 2),
        entry(CompiledCommand::Plus, 5),
        entry(CompiledCommand::RightLoop, 0),
        entry(CompiledCommand::Plus, 1),
    ]);
    assert_eq!(machine.step(), Status::Running);
    assert_eq!(machine.cell(), 0);
    assert_eq!(machine.step(), Status::Halted);
    assert_eq!(machine.cell(), 1);
}

#[test]
fn left_loop_falls_through_on_nonzero() {
    let mut machine = Machine::new(vec![
        entry(CompiledCommand::Plus, 1),
        entry(CompiledCommand::LeftLoop, 3),
        entry(CompiledCommand::Minus, 1),
        entry(CompiledCommand::RightLoop, 1),
    ]);
    machine.step();
    machine.step();
    machine.step();
    assert_eq!(machine.cell(), 0);
    assert_eq!(machine.step(), Status::Halted);
}

#[test]
fn right_loop_jumps_back_on_nonzero() {
    let mut machine = Machine::new(vec![
        entry(CompiledCommand::Plus, 3),
        entry(CompiledCommand::LeftLoop, 5),
        entry(CompiledCommand::Minus, 1),
        entry(CompiledCommand::Right, 1),
        entry(CompiledCommand::Left, 1),
        entry(CompiledCommand::RightLoop, 1),
        entry(CompiledCommand::Output, 1),
    ]);
    assert_eq!(run_to_rest(&mut machine), Status::Halted);
    assert_eq!(machine.cell(), 0);
    assert_eq!(machine.output(), &vec![0u8]);
}

#[test]
fn a_jump_past_the_end_halts_the_machine() {
    let mut machine = Machine::new(vec![
        entry(CompiledCommand::LeftLoop, usize::MAX),
        entry(CompiledCommand::Plus, 1),
    ]);
    assert_eq!(machine.step(), Status::Halted);
    assert_eq!(machine.cell(), 0);
    let mut machine = Machine::new(vec![
        entry(CompiledCommand::Plus, 1),
        entry(CompiledCommand::RightLoop, 2),
        entry(CompiledCommand::Plus, 1),
    ]);
    machine.step();
    assert_eq!(machine.step(), Status::Halted);
    assert_eq!(machine.cell(), 1);
}

#[test]
fn machine_waits_at_input_until_supplied() {
    let mut machine = Machine::new(vec![
        entry(CompiledCommand::Input, 1),
        entry(CompiledCommand::Output, 1),
    ]);
    assert_eq!(machine.status(), Status::AwaitingInput);
    assert_eq!(machine.step(), Status::AwaitingInput);
    assert_eq!(machine.cell(), 0);
    assert!(machine.supply(90));
    assert_eq!(machine.cell(), 90);
    assert_eq!(machine.status(), Status::Running);
    assert_eq!(machine.step(), Status::Halted);
    assert_eq!(machine.output(), &vec![90u8]);
}

#[test]
fn supply_is_refused_when_not_waiting() {
    let mut machine = Machine::new(vec![entry(CompiledCommand::Plus, 1)]);
    assert!(!machine.supply(9));
    assert_eq!(machine.cell(), 0);
    assert_eq!(machine.status(), Status::Running);
    assert_eq!(machine.step(), Status::Halted);
    assert_eq!(machine.cell(), 1);
    assert!(!machine.supply(9));
    assert_eq!(machine.cell(), 1);
}

#[test]
fn input_takes_one_byte_whatever_its_amount() {
    let mut machine = Machine::new(vec![entry(CompiledCommand::Input, 3)]);
    assert!(machine.supply(1));
    assert_eq!(machine.status(), Status::Halted);
    assert!(!machine.supply(2));
    assert_eq!(machine.cell(), 1);
}
