use micromouse::comm::micromouse_manager::{
    HaltReason, ManagerState, ManagerStep, MicromouseEvent, MicromouseManagerError, MicromouseMode,
};
use micromouse::comm::micromouse_message::{Command, CommandId, MovementType};
use micromouse::transform::direction::Direction;
use micromouse::transform::position::{MouseTransform, Position};

fn cmd(ty: MovementType) -> Command {
    Command { ty, interrupts: vec![] }
}

fn read(state: &mut ManagerState<4>, text: &str) -> ManagerStep {
    state.next(Some(text.to_string()))
}

fn events(step: ManagerStep) -> Vec<MicromouseEvent> {
    match step {
        ManagerStep::Done { resend, result } => {
            assert!(resend.is_empty());
            result.unwrap()
        }
        ManagerStep::Halt(h) => panic!("halted: {h:?}"),
    }
}

fn error(step: ManagerStep) -> MicromouseManagerError {
    match step {
        ManagerStep::Done { result, .. } => result.err().unwrap(),
        ManagerStep::Halt(h) => panic!("halted: {h:?}"),
    }
}

#[test]
fn commands_get_consecutive_ids() {
    let mut state = ManagerState::<4>::new();
    assert_eq!(state.mode, MicromouseMode::Stopped);
    let a = state.send_command(cmd(MovementType::Move(1)));
    let b = state.send_command(cmd(MovementType::Turn(1)));
    assert_eq!(a.cmd_id, CommandId(0));
    assert_eq!(b.cmd_id, CommandId(1));
    assert_eq!(state.unconfirmed_cmd.len(), 2);
    assert!(state.queue_below_target());
    state.send_command(cmd(MovementType::Turn(1)));
    assert!(!state.queue_below_target());
    assert!(state.unconfirmed(CommandId(1)).is_some());
    assert!(state.unconfirmed(CommandId(7)).is_none());
}

#[test]
fn finished_command_moves_the_mouse() {
    let mut state = ManagerState::<4>::new();
    state.send_command(cmd(MovementType::Move(1)));
    let ev = events(read(&mut state, "CMD-FINISHED #0"));
    assert_eq!(ev.len(), 2);
    assert!(matches!(ev[0], MicromouseEvent::FinishedCommand { cmd_id: CommandId(0), require_new: true }));
    let moved = MouseTransform { pos: Position { x: 1, y: 0 }, dir: Direction::PosX };
    assert!(matches!(ev[1], MicromouseEvent::UpdatePosition(t) if t == moved));
    assert_eq!(state.current_world.mouse, moved);
    assert!(state.current_command.is_none());
    assert_eq!(state.next_cmd_process_id, 1);
    assert!(state.unconfirmed_cmd.is_empty());
}

#[test]
fn finished_command_with_more_queued_needs_no_new_one() {
    let mut state = ManagerState::<4>::new();
    state.send_command(cmd(MovementType::Turn(1)));
    state.send_command(cmd(MovementType::Move(1)));
    let ev = events(read(&mut state, "CMD-FINISHED #0"));
    assert!(matches!(ev[0], MicromouseEvent::FinishedCommand { cmd_id: CommandId(0), require_new: false }));
    assert_eq!(state.current_world.mouse.dir, Direction::NegY);
}

#[test]
fn mode_battery_and_debug() {
    let mut state = ManagerState::<4>::new();
    assert!(matches!(events(read(&mut state, "CONTINUE"))[..], [MicromouseEvent::Continue]));
    assert_eq!(state.mode, MicromouseMode::Running);
    assert!(matches!(events(read(&mut state, "STOP"))[..], [MicromouseEvent::Stop]));
    assert_eq!(state.mode, MicromouseMode::Stopped);
    assert!(events(read(&mut state, "BATTERY 42")).is_empty());
    assert_eq!(state.battery, 42);
    let ev = events(read(&mut state, "DBG hello  there"));
    assert!(matches!(&ev[..], [MicromouseEvent::DebugMessage(m)] if m == "hello there"));
}

#[test]
fn restart_forgets_the_queue() {
    let mut state = ManagerState::<4>::new();
    state.send_command(cmd(MovementType::Move(1)));
    events(read(&mut state, "CMD-FINISHED #0"));
    state.send_command(cmd(MovementType::Move(1)));
    assert!(matches!(events(read(&mut state, "RESTART"))[..], [MicromouseEvent::Restart]));
    assert_eq!(state.mode, MicromouseMode::Running);
    assert!(state.unconfirmed_cmd.is_empty());
    assert_eq!(state.next_cmd_send_id, 0);
    assert_eq!(state.current_world.mouse.pos, Position { x: 0, y: 0 });
    assert_eq!(state.next_cmd_process_id, 1);
}

#[test]
fn desync_resends_what_is_queued() {
    let mut state = ManagerState::<4>::new();
    state.send_command(cmd(MovementType::Move(1)));
    state.send_command(cmd(MovementType::Turn(-1)));
    match read(&mut state, "DESYNC #1 #0") {
        ManagerStep::Done { resend, result } => {
            assert_eq!(resend.len(), 2);
            assert_eq!(resend[0].cmd_id, CommandId(1));
            assert_eq!(resend[0].cmd.ty, MovementType::Turn(-1));
            assert_eq!(resend[1].cmd_id, CommandId(0));
            assert!(result.unwrap().is_empty());
        }
        ManagerStep::Halt(_) => panic!(),
    }
    match read(&mut state, "DESYNC #1 #5 #0") {
        ManagerStep::Done { resend, result } => {
            assert_eq!(resend.len(), 1);
            assert!(matches!(result, Err(MicromouseManagerError::CmdConfirmThenReqested(CommandId(5)))));
        }
        ManagerStep::Halt(_) => panic!(),
    }
}

#[test]
fn errors_of_the_manager() {
    let mut state = ManagerState::<4>::new();
    assert!(matches!(state.next(None), ManagerStep::Done { result: Err(MicromouseManagerError::ConnectionClosedPermanently), .. }));
    assert!(matches!(error(read(&mut state, "HELLO")), MicromouseManagerError::UnknownResponse(_)));
    assert!(matches!(error(read(&mut state, "CMD-FINISHED #3")), MicromouseManagerError::CmdNotKnown(CommandId(3))));
    state.send_command(cmd(MovementType::Move(1)));
    state.send_command(cmd(MovementType::Move(1)));
    assert!(matches!(
        error(read(&mut state, "CMD-FINISHED #1")),
        MicromouseManagerError::WrongProcessOrder { expected: CommandId(0), received: CommandId(1) }
    ));
    assert_eq!(state.next_cmd_process_id, 2);
    assert!(matches!(error(read(&mut state, "MEASUREMENT #0 0_F 1")), MicromouseManagerError::CmdStartBeforeFinish {
        new_cmd: CommandId(0),
        unfinished_cmd: CommandId(1)
    }));
    assert!(matches!(error(read(&mut state, "CMD-FINISHED #1 5_F_CONTINUE")), MicromouseManagerError::CmdTooLong(CommandId(1))));
    assert!(state.current_command.is_none());
}

#[test]
fn a_command_leaving_the_map_halts() {
    let mut state = ManagerState::<4>::new();
    state.send_command(cmd(MovementType::Turn(2)));
    events(read(&mut state, "CMD-FINISHED #0"));
    assert_eq!(state.current_world.mouse.dir, Direction::NegX);
    state.send_command(cmd(MovementType::Move(1)));
    assert!(matches!(read(&mut state, "CMD-FINISHED #1"), ManagerStep::Halt(HaltReason::CommandNotEnumerable(CommandId(1)))));
}

#[test]
fn removing_out_of_order() {
    let mut state = ManagerState::<4>::new();
    state.send_command(cmd(MovementType::Move(1)));
    assert!(state.remove_unordered(CommandId(0)).is_ok());
    assert!(matches!(state.remove_unordered(CommandId(0)), Err(MicromouseManagerError::CmdNotKnown(CommandId(0)))));
}

#[test]
fn only_the_started_command_leaves_the_queue() {
    let mut state = ManagerState::<4>::new();
    for _ in 0..3 {
        state.send_command(cmd(MovementType::Move(1)));
    }
    read(&mut state, "CMD-FINISHED #1");
    let ids: Vec<CommandId> = state.unconfirmed_cmd.iter().map(|m| m.cmd_id).collect();
    assert_eq!(ids, vec![CommandId(0), CommandId(2)]);
    events(read(&mut state, "BATTERY 7"));
    assert_eq!(state.unconfirmed_cmd.len(), 2);
}
