use dialogue_engine::vm::{BranchLeaf, Instruction, Program, ProgramState, Request, VmError};

fn leaf(name: &str, address: usize) -> BranchLeaf {
    BranchLeaf { option_name: name.to_string(), jmp_address: address }
}

fn text(words: &str) -> Instruction {
    Instruction::Msg(words.to_string())
}

#[test]
fn fresh_engine_is_paused_at_the_entry_point() {
    let program = Program::new(vec![Instruction::Ret, Instruction::Ret], 1);
    let engine = program.run();
    assert_eq!(engine.state(), ProgramState::Paused);
    assert_eq!(engine.instruction_ptr(), 1);
}

#[test]
fn message_advances_the_pointer_and_pauses() {
    let program = Program::new(vec![text("one"), text("two"), Instruction::Ret], 0);
    let mut engine = program.run();
    assert_eq!(engine.unpause(None), Ok(Request::PrintMessage("one")));
    assert_eq!(engine.instruction_ptr(), 1);
    assert_eq!(engine.state(), ProgramState::Paused);
    assert_eq!(engine.unpause(None), Ok(Request::PrintMessage("two")));
    assert_eq!(engine.instruction_ptr(), 2);
}

#[test]
fn wait_advances_the_pointer_and_waits() {
    let program = Program::new(vec![Instruction::Wait, Instruction::Ret], 0);
    let mut engine = program.run();
    assert_eq!(engine.unpause(None), Ok(Request::Wait));
    assert_eq!(engine.instruction_ptr(), 1);
    assert_eq!(engine.state(), ProgramState::Waiting);
    assert_eq!(engine.done_printing(None), Ok(Request::Drop));
    assert_eq!(engine.state(), ProgramState::Terminated);
}

#[test]
fn branch_leaves_the_pointer_on_itself() {
    let options = vec![leaf("left", 1), leaf("right", 2)];
    let program = Program::new(
        vec![Instruction::Branch(options.clone()), text("L"), text("R"), Instruction::Ret],
        0,
    );
    let mut engine = program.run();
    assert_eq!(engine.unpause(None), Ok(Request::PerformChoice(&options[..])));
    assert_eq!(engine.instruction_ptr(), 0);
    assert_eq!(engine.state(), ProgramState::WaitingForChoice);
    assert_eq!(engine.select(1, None), Ok(Request::PrintMessage("R")));
    assert_eq!(engine.instruction_ptr(), 3);
}

#[test]
fn choice_out_of_range_changes_nothing() {
    let options = vec![leaf("only", 1)];
    let program = Program::new(vec![Instruction::Branch(options), text("picked")], 0);
    let mut engine = program.run();
    assert!(matches!(engine.unpause(None), Ok(Request::PerformChoice(_))));
    assert_eq!(engine.select(1, None), Err(VmError::ChoiceOutOfRange));
    assert_eq!(engine.state(), ProgramState::WaitingForChoice);
    assert_eq!(engine.instruction_ptr(), 0);
    assert_eq!(engine.select(usize::MAX, Some(0)), Err(VmError::ChoiceOutOfRange));
    assert_eq!(engine.state(), ProgramState::WaitingForChoice);
    assert_eq!(engine.unpause(None), Err(VmError::InvalidStateTransition));
    assert_eq!(engine.select(0, None), Ok(Request::PrintMessage("picked")));
    assert_eq!(engine.instruction_ptr(), 2);
}

#[test]
fn wrong_operation_changes_nothing() {
    let options = vec![leaf("only", 2)];
    let program = Program::new(
        vec![Instruction::Wait, Instruction::Branch(options), Instruction::Ret],
        0,
    );
    let mut engine = program.run();
    assert_eq!(engine.done_printing(None), Err(VmError::InvalidStateTransition));
    assert_eq!(engine.select(0, None), Err(VmError::InvalidStateTransition));
    assert_eq!(engine.state(), ProgramState::Paused);
    assert_eq!(engine.instruction_ptr(), 0);

    assert_eq!(engine.unpause(None), Ok(Request::Wait));
    assert_eq!(engine.unpause(None), Err(VmError::InvalidStateTransition));
    assert_eq!(engine.select(0, None), Err(VmError::InvalidStateTransition));
    assert_eq!(engine.state(), ProgramState::Waiting);
    assert_eq!(engine.instruction_ptr(), 1);

    assert!(matches!(engine.done_printing(None), Ok(Request::PerformChoice(_))));
    assert_eq!(engine.unpause(None), Err(VmError::InvalidStateTransition));
    assert_eq!(engine.done_printing(None), Err(VmError::InvalidStateTransition));
    assert_eq!(engine.state(), ProgramState::WaitingForChoice);
    assert_eq!(engine.instruction_ptr(), 1);
}

#[test]
fn terminated_engine_refuses_every_operation() {
    let program = Program::new(vec![Instruction::Ret], 0);
    let mut engine = program.run();
    assert_eq!(engine.unpause(None), Ok(Request::Drop));
    assert_eq!(engine.state(), ProgramState::Terminated);
    assert_eq!(engine.unpause(None), Err(VmError::InvalidStateTransition));
    assert_eq!(engine.unpause(Some(0)), Err(VmError::InvalidStateTransition));
    assert_eq!(engine.done_printing(None), Err(VmError::InvalidStateTransition));
    assert_eq!(engine.select(0, Some(3)), Err(VmError::InvalidStateTransition));
    assert_eq!(engine.state(), ProgramState::Terminated);
}

#[test]
fn jump_to_itself_faults_where_it_stands() {
    let program = Program::new(vec![Instruction::Jmp(1), Instruction::Jmp(1)], 0);
    let mut engine = program.run();
    assert_eq!(engine.unpause(None), Err(VmError::SelfJump));
    assert_eq!(engine.instruction_ptr(), 1);
    assert_eq!(engine.state(), ProgramState::Terminated);
}

#[test]
fn self_jump_is_not_reached_without_fuel() {
    let program = Program::new(vec![Instruction::Jmp(0)], 0);
    let mut engine = program.run();
    assert_eq!(engine.unpause(Some(0)), Ok(Request::Resume));
    assert_eq!(engine.state(), ProgramState::Paused);
    assert_eq!(engine.unpause(Some(1)), Err(VmError::SelfJump));
}

#[test]
fn pointer_outside_the_code_faults() {
    let program = Program::new(vec![Instruction::Jmp(7)], 0);
    let mut engine = program.run();
    assert_eq!(engine.unpause(None), Err(VmError::AddressOutOfRange));
    assert_eq!(engine.instruction_ptr(), 7);
    assert_eq!(engine.state(), ProgramState::Terminated);

    let empty = Program::new(vec![], 0);
    let mut idle = empty.run();
    assert_eq!(idle.unpause(None), Err(VmError::AddressOutOfRange));

    let late = Program::new(vec![text("end")], 0);
    let mut runner = late.run();
    assert_eq!(runner.unpause(None), Ok(Request::PrintMessage("end")));
    assert_eq!(runner.unpause(None), Err(VmError::AddressOutOfRange));
    assert_eq!(runner.instruction_ptr(), 1);
}

#[test]
fn fuel_bounds_the_steps_of_one_operation() {
    let program = Program::new(
        vec![Instruction::Jmp(1), Instruction::Jmp(2), Instruction::Jmp(0)],
        0,
    );
    let mut engine = program.run();
    assert_eq!(engine.unpause(Some(4)), Ok(Request::Resume));
    assert_eq!(engine.instruction_ptr(), 1);
    assert_eq!(engine.state(), ProgramState::Paused);
    assert_eq!(engine.unpause(Some(2)), Ok(Request::Resume));
    assert_eq!(engine.instruction_ptr(), 0);
    assert_eq!(engine.unpause(Some(0)), Ok(Request::Resume));
    assert_eq!(engine.instruction_ptr(), 0);
}

#[test]
fn fuel_counts_the_concluding_step() {
    let program = Program::new(vec![Instruction::Jmp(1), text("x"), Instruction::Ret], 0);
    let mut short = program.run();
    assert_eq!(short.unpause(Some(1)), Ok(Request::Resume));
    assert_eq!(short.instruction_ptr(), 1);
    let mut exact = program.run();
    assert_eq!(exact.unpause(Some(2)), Ok(Request::PrintMessage("x")));
    assert_eq!(exact.instruction_ptr(), 2);
}

#[test]
fn acknowledging_without_fuel_pauses() {
    let program = Program::new(vec![Instruction::Wait, text("x")], 0);
    let mut engine = program.run();
    assert_eq!(engine.unpause(None), Ok(Request::Wait));
    assert_eq!(engine.done_printing(Some(0)), Ok(Request::Resume));
    assert_eq!(engine.state(), ProgramState::Paused);
    assert_eq!(engine.unpause(None), Ok(Request::PrintMessage("x")));
}

#[test]
fn return_pops_the_frame_stack() {
    let program = Program::new(
        vec![
            Instruction::PushPtr(4),
            Instruction::PushPtr(3),
            Instruction::Ret,
            Instruction::Ret,
            text("back"),
            Instruction::Ret,
        ],
        0,
    );
    let mut engine = program.run();
    assert_eq!(engine.unpause(None), Ok(Request::PrintMessage("back")));
    assert_eq!(engine.instruction_ptr(), 5);
    assert_eq!(engine.unpause(None), Ok(Request::Drop));
    assert_eq!(engine.instruction_ptr(), 5);
}

#[test]
fn engines_of_one_program_are_independent() {
    let program = Program::new(vec![text("a"), Instruction::Wait, Instruction::Ret], 0);
    let mut first = program.run();
    let mut second = program.run();
    assert_eq!(first.unpause(None), Ok(Request::PrintMessage("a")));
    assert_eq!(first.unpause(None), Ok(Request::Wait));
    assert_eq!(second.state(), ProgramState::Paused);
    assert_eq!(second.instruction_ptr(), 0);
    assert_eq!(second.unpause(None), Ok(Request::PrintMessage("a")));
    assert_eq!(first.state(), ProgramState::Waiting);
}
