use bf_interpreter::{
    compile, parse_input, relink, CollapsedCommands, Command, CompiledCollapsedCommand,
    CompiledCommand, StructuralError,
};

fn source(command: Command, amount: usize) -> CollapsedCommands {
    CollapsedCommands { command, amount }
}

fn compiled(command: CompiledCommand, amount: usize) -> CompiledCollapsedCommand {
    CompiledCollapsedCommand { command, amount }
}

#[test]
fn test_set_zero() {
    let input: Vec<CollapsedCommands> = vec![
        CollapsedCommands {
            command: Command::LeftLoop,
            amount: 1,
        },
        CollapsedCommands {
            command: Command::Minus,
            amount: 1,
        },
        CollapsedCommands {
            command: Command::RightLoop,
            amount: 1,
        },
    ];
    let expected_output: Vec<CompiledCollapsedCommand> = vec![CompiledCollapsedCommand {
        command: CompiledCommand::SetZero,
        amount: 1,
    }];

    let compiled_input = compile(input);
    assert_eq!(compiled_input, expected_output);
}

#[test]
fn test_complex_set_zero() {
    let input: Vec<CollapsedCommands> = vec![
        CollapsedCommands {
            command: Command::LeftLoop,
            amount: 1,
        },
        CollapsedCommands {
            command: Command::LeftLoop,
            amount: 1,
        },
        CollapsedCommands {
            command: Command::Minus,
            amount: 1,
        },
        CollapsedCommands {
            command: Command::RightLoop,
            amount: 1,
        },
        CollapsedCommands {
            command: Command::RightLoop,
            amount: 1,
        },
    ];

    let expected_output: Vec<CompiledCollapsedCommand> = vec![
        CompiledCollapsedCommand {
            command: CompiledCommand::LeftLoop,
            amount: 1,
        },
        CompiledCollapsedCommand {
            command: CompiledCommand::SetZero,
            amount: 1,
        },
        CompiledCollapsedCommand {
            command: CompiledCommand::RightLoop,
            amount: 1,
        },
    ];
    let compiled_input = compile(input);
    assert_eq!(compiled_input, expected_output);
}

#[test]
fn compile_empty_program() {
    assert_eq!(compile(vec![]), vec![]);
}

#[test]
fn compile_copies_every_command_with_its_amount() {
    let input = vec![
        source(Command::Plus, 3),
        source(Command::Minus, 4),
        source(Command::LeftLoop, 7),
        source(Command::RightLoop, 2),
        source(Command::Left, 5),
        source(Command::Right, 6),
        source(Command::Output, 8),
        source(Command::Input, 9),
    ];
    let expected = vec![
        compiled(CompiledCommand::Plus, 3),
        compiled(CompiledCommand::Minus, 4),
        compiled(CompiledCommand::LeftLoop, 7),
        compiled(CompiledCommand::RightLoop, 2),
        compiled(CompiledCommand::Left, 5),
        compiled(CompiledCommand::Right, 6),
        compiled(CompiledCommand::Output, 8),
        compiled(CompiledCommand::Input, 9),
    ];
    assert_eq!(compile(input), expected);
}

#[test]
fn compile_is_a_copy_without_the_clearing_loop() {
    let parsed = parse_input("++[->+<]>.").unwrap();
    let compiled_program = compile(parsed.clone());
    assert_eq!(compiled_program.len(), parsed.len());
    for (before, after) in parsed.iter().zip(compiled_program.iter()) {
        assert_eq!(before.amount, after.amount);
        assert_ne!(after.command, CompiledCommand::SetZero);
    }
    assert_eq!(compiled_program[1], compiled(CompiledCommand::LeftLoop, 6));
    assert_eq!(compiled_program[6], compiled(CompiledCommand::RightLoop, 1));
}

#[test]
fn compile_keeps_a_loop_that_subtracts_more_than_one() {
    let input = vec![
        source(Command::LeftLoop, 2),
        source(Command::Minus, 2),
        source(Command::RightLoop, 0),
    ];
    let expected = vec![
        compiled(CompiledCommand::LeftLoop, 2),
        compiled(CompiledCommand::Minus, 2),
        compiled(CompiledCommand::RightLoop, 0),
    ];
    assert_eq!(compile(input), expected);
}

#[test]
fn compile_keeps_a_loop_that_adds() {
    let input = vec![
        source(Command::LeftLoop, 2),
        source(Command::Plus, 1),
        source(Command::RightLoop, 0),
    ];
    let expected = vec![
        compiled(CompiledCommand::LeftLoop, 2),
        compiled(CompiledCommand::Plus, 1),
        compiled(CompiledCommand::RightLoop, 0),
    ];
    assert_eq!(compile(input), expected);
}

#[test]
fn compile_keeps_a_loop_with_a_longer_body() {
    let input = vec![
        source(Command::LeftLoop, 3),
        source(Command::Minus, 1),
        source(Command::Right, 1),
        source(Command::RightLoop, 0),
    ];
    let expected = vec![
        compiled(CompiledCommand::LeftLoop, 3),
        compiled(CompiledCommand::Minus, 1),
        compiled(CompiledCommand::Right, 1),
        compiled(CompiledCommand::RightLoop, 0),
    ];
    assert_eq!(compile(input), expected);
}

#[test]
fn compile_keeps_a_pattern_cut_off_by_the_end() {
    let input = vec![source(Command::Plus, 1), source(Command::LeftLoop, 1), source(Command::Minus, 1)];
    let expected = vec![
        compiled(CompiledCommand::Plus, 1),
        compiled(CompiledCommand::LeftLoop, 1),
        compiled(CompiledCommand::Minus, 1),
    ];
    assert_eq!(compile(input), expected);
    assert_eq!(
        compile(vec![source(Command::LeftLoop, 1)]),
        vec![compiled(CompiledCommand::LeftLoop, 1)]
    );
}

#[test]
fn compile_replaces_every_clearing_loop() {
    let parsed = parse_input("[-]>[-]+[-]").unwrap();
    let expected = vec![
        compiled(CompiledCommand::SetZero, 1),
        compiled(CompiledCommand::Right, 1),
        compiled(CompiledCommand::SetZero, 1),
        compiled(CompiledCommand::Plus, 1),
        compiled(CompiledCommand::SetZero, 1),
    ];
    assert_eq!(compile(parsed), expected);
}

#[test]
fn compile_leaves_recorded_targets_as_they_were() {
    let parsed = parse_input("[>[-]<-]+.").unwrap();
    let expected = vec![
        compiled(CompiledCommand::LeftLoop, 7),
        compiled(CompiledCommand::Right, 1),
        compiled(CompiledCommand::SetZero, 1),
        compiled(CompiledCommand::Left, 1),
        compiled(CompiledCommand::Minus, 1),
        compiled(CompiledCommand::RightLoop, 0),
        compiled(CompiledCommand::Plus, 1),
        compiled(CompiledCommand::Output, 1),
    ];
    assert_eq!(compile(parsed), expected);
}

#[test]
fn relink_points_brackets_at_their_partners_after_a_clearing_loop() {
    let parsed = parse_input("[>[-]<-]+.").unwrap();
    let expected = vec![
        compiled(CompiledCommand::LeftLoop, 5),
        compiled(CompiledCommand::Right, 1),
        compiled(CompiledCommand::SetZero, 1),
        compiled(CompiledCommand::Left, 1),
        compiled(CompiledCommand::Minus, 1),
        compiled(CompiledCommand::RightLoop, 0),
        compiled(CompiledCommand::Plus, 1),
        compiled(CompiledCommand::Output, 1),
    ];
    assert_eq!(relink(compile(parsed)), Ok(expected));
}

#[test]
fn relink_pairs_every_loop_with_its_partner() {
    let program = compile(parse_input("++[->+<]>[[-]<+>]").unwrap());
    let relinked = relink(program.clone()).unwrap();
    assert_eq!(relinked.len(), program.len());
    let mut loops = 0;
    for (i, open) in relinked.iter().enumerate() {
        assert_eq!(open.command, program[i].command);
        if open.command == CompiledCommand::LeftLoop {
            loops += 1;
            let j = open.amount;
            assert!(i < j && j < relinked.len());
            assert_eq!(relinked[j], compiled(CompiledCommand::RightLoop, i));
        } else if open.command != CompiledCommand::RightLoop {
            assert_eq!(open.amount, program[i].amount);
        }
    }
    assert_eq!(loops, 2);
}

#[test]
fn relink_changes_nothing_in_a_linked_program() {
    let untouched = compile(parse_input("++[->+<]>.").unwrap());
    assert_eq!(relink(untouched.clone()), Ok(untouched));
}

#[test]
fn relink_overwrites_whatever_the_brackets_recorded() {
    let program = vec![
        compiled(CompiledCommand::LeftLoop, 99),
        compiled(CompiledCommand::Plus, 99),
        compiled(CompiledCommand::LeftLoop, 0),
        compiled(CompiledCommand::SetZero, 7),
        compiled(CompiledCommand::RightLoop, 50),
        compiled(CompiledCommand::RightLoop, 1),
    ];
    let expected = vec![
        compiled(CompiledCommand::LeftLoop, 5),
        compiled(CompiledCommand::Plus, 99),
        compiled(CompiledCommand::LeftLoop, 4),
        compiled(CompiledCommand::SetZero, 7),
        compiled(CompiledCommand::RightLoop, 2),
        compiled(CompiledCommand::RightLoop, 0),
    ];
    assert_eq!(relink(program), Ok(expected));
}

#[test]
fn relink_rejects_brackets_that_do_not_pair_up() {
    assert_eq!(
        relink(vec![compiled(CompiledCommand::RightLoop, 0)]),
        Err(StructuralError::UnmatchedClosingBracket)
    );
    assert_eq!(
        relink(vec![compiled(CompiledCommand::LeftLoop, 0), compiled(CompiledCommand::Plus, 1)]),
        Err(StructuralError::UnmatchedOpeningBracket)
    );
    assert_eq!(
        relink(vec![
            compiled(CompiledCommand::RightLoop, 0),
            compiled(CompiledCommand::LeftLoop, 0)
        ]),
        Err(StructuralError::UnmatchedClosingBracket)
    );
    assert_eq!(relink(vec![]), Ok(vec![]));
}
