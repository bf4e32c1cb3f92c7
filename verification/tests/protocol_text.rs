use micromouse::comm::micromouse_message::{
    Command, CommandId, CommandMessage, FormatError, InterruptAction, InterruptOccurence, InterruptStep,
    MeasurementInterrupt, MeasurementMessage, MeasurementOccurrence, MicromouseResponse, MovementType,
};
use micromouse::transform::direction::RelativeDirection;

fn s(t: &str) -> String {
    t.to_string()
}

fn measure(direction: RelativeDirection, at_step: InterruptStep, action: InterruptAction) -> MeasurementInterrupt {
    MeasurementInterrupt { direction, at_step, action }
}

#[test]
fn command_ids() {
    assert_eq!(CommandId(42).to_text(), "#42");
    assert_eq!(CommandId::try_from_text(s("#42")).ok(), Some(CommandId(42)));
    assert_eq!(CommandId::try_from_text(s("#+7")).ok(), Some(CommandId(7)));
    assert_eq!(CommandId::try_from_text(s("42")).err().unwrap().faulty_text, "42");
    assert_eq!(CommandId::try_from_text(s("#x")).err().unwrap().faulty_text, "#x");
    assert_eq!(CommandId::try_from_text(s("#4294967296")).err().unwrap().faulty_text, "#4294967296");
}

#[test]
fn interrupt_parts() {
    assert_eq!(InterruptAction::StopIfOpen.as_text(), "STOP-IF-OPEN");
    assert_eq!(InterruptAction::try_from_text(s("CONTINUE")).ok(), Some(InterruptAction::Continue));
    assert_eq!(InterruptAction::try_from_text(s("STOP")).err().unwrap().faulty_text, "STOP");
    assert_eq!(InterruptStep::Each.to_text(), "X");
    assert_eq!(InterruptStep::At(17).to_text(), "17");
    assert_eq!(InterruptStep::try_from_text(s("X")).ok(), Some(InterruptStep::Each));
    assert_eq!(InterruptStep::try_from_text(s("3")).ok(), Some(InterruptStep::At(3)));
    assert_eq!(InterruptStep::try_from_text(s("Y")).err().unwrap().faulty_text, "Y");
    assert_eq!(RelativeDirection::try_from_text(s("L")).ok(), Some(RelativeDirection::Left));
    assert_eq!(RelativeDirection::try_from_text(s("B")).err().unwrap().faulty_text, "B");
    let m = measure(RelativeDirection::Forward, InterruptStep::Each, InterruptAction::StopIfBlocked);
    assert_eq!(m.to_text(), "X_F_STOP-IF-BLOCKED");
    assert_eq!(
        MeasurementOccurrence::try_from_text(s("2_L")).ok(),
        Some(MeasurementOccurrence { direction: RelativeDirection::Left, at_step: 2 })
    );
    assert_eq!(MeasurementOccurrence::try_from_text(s("2_Q")).err().unwrap().faulty_text, "2_Q");
    assert_eq!(MeasurementOccurrence::try_from_text(s("x_L")).err().unwrap().faulty_text, "x_L");
    assert_eq!(
        InterruptOccurence::try_from_text(s("3_R_STOP-IF-OPEN")).ok().map(|o| (o.occurence.at_step, o.action)),
        Some((3, InterruptAction::StopIfOpen))
    );
    assert_eq!(InterruptOccurence::try_from_text(s("3_R_JUMP")).err().unwrap().faulty_text, "3_R_JUMP");
    assert_eq!(
        InterruptOccurence::try_from_text(s("x_R_CONTINUE")).err().unwrap().faulty_text,
        "Err caused by (FormatError: x_R)"
    );
}

#[test]
fn command_messages_to_text_and_back() {
    let cmd = CommandMessage {
        cmd: Command {
            ty: MovementType::Move(5),
            interrupts: vec![
                measure(RelativeDirection::Forward, InterruptStep::Each, InterruptAction::StopIfBlocked),
                measure(RelativeDirection::Right, InterruptStep::At(0), InterruptAction::StopIfOpen),
            ],
        },
        cmd_id: CommandId(3),
    };
    let text = cmd.to_text();
    assert_eq!(text, "MOVE #3 5 MEASURE X_F_STOP-IF-BLOCKED 0_R_STOP-IF-OPEN");
    let back = CommandMessage::try_from_text(text).ok().unwrap();
    assert_eq!(back.cmd, cmd.cmd);
    assert_eq!(back.cmd_id, cmd.cmd_id);

    let turn = CommandMessage { cmd: Command { ty: MovementType::Turn(-1), interrupts: vec![] }, cmd_id: CommandId(4) };
    assert_eq!(turn.to_text(), "TURN #4 -1");
    assert_eq!(turn.to_frame_text(), "TURN #4 -1 ");
    let back = CommandMessage::try_from_text(turn.to_frame_text()).ok().unwrap();
    assert_eq!(back.cmd, turn.cmd);
}

#[test]
fn command_message_errors() {
    let err = |t: &str| CommandMessage::try_from_text(s(t)).err().unwrap().faulty_text;
    assert_eq!(err("JUMP #1 2"), "JUMP #1 2");
    assert_eq!(err("TURN #1"), "TURN #1");
    assert_eq!(err("TURN #1 300"), "number too large to fit in target type");
    assert_eq!(err("TURN #1 -200"), "number too small to fit in target type");
    assert_eq!(err("MOVE #1 -1"), "invalid digit found in string");
    assert_eq!(err("MOVE x 1"), "x");
    assert_eq!(err("MOVE #1 1 FOO"), "MOVE #1 1 FOO");
    assert_eq!(err("MOVE #1 1 MEASURE 1_Q_CONTINUE"), "Q");
    assert_eq!(err("MOVE #1 1 MEASURE 1_L"), "1_L");
}

#[test]
fn mouse_messages() {
    let parse = |t: &str| MicromouseResponse::try_from_text(s(t));
    assert!(matches!(parse(" CONTINUE \n"), Ok(MicromouseResponse::Continue)));
    assert!(matches!(parse("STOP"), Ok(MicromouseResponse::Stop)));
    assert!(matches!(parse("RESTART"), Ok(MicromouseResponse::Restart)));
    match parse("DBG hello   world") {
        Ok(MicromouseResponse::Debug(m)) => assert_eq!(m, "hello world"),
        _ => panic!("debug message"),
    }
    match parse("MEASUREMENT #1 2_L 3") {
        Ok(MicromouseResponse::Measurement(m)) => assert_eq!(
            m,
            MeasurementMessage {
                from_cmd: CommandId(1),
                interrupt: MeasurementOccurrence { direction: RelativeDirection::Left, at_step: 2 },
                depth: 3,
                is_sensorlimit: false,
            }
        ),
        _ => panic!("measurement"),
    }
    assert!(matches!(
        parse("MEASUREMENT #1 2_L 3 SENSORLIMIT"),
        Ok(MicromouseResponse::Measurement(MeasurementMessage { is_sensorlimit: true, .. }))
    ));
    let text = |r: Result<MicromouseResponse, FormatError<MicromouseResponse>>| r.err().unwrap().faulty_text;
    assert_eq!(text(parse("MEASUREMENT #1 2_L x")), "MEASUREMENT #1 2_L x");
    assert_eq!(text(parse("MEASUREMENT 1 2_L 3")), "Err caused by (FormatError: 1)");
    assert_eq!(text(parse("MEASUREMENT #1 2_L 3 OTHER")), "MEASUREMENT #1 2_L 3 OTHER");
    match parse("CMD-FINISHED #5") {
        Ok(MicromouseResponse::CommandFinished(f)) => {
            assert_eq!(f.cmd_id, CommandId(5));
            assert!(f.reason.is_none());
        },
        _ => panic!("finished"),
    }
    assert!(matches!(
        parse("CMD-FINISHED #5 3_F_STOP-IF-OPEN"),
        Ok(MicromouseResponse::CommandFinished(f)) if f.reason.is_some()
    ));
    assert!(matches!(parse("BATTERY 80"), Ok(MicromouseResponse::Battery(80))));
    assert_eq!(text(parse("BATTERY 300")), "300");
    match parse("DESYNC #1 #2") {
        Ok(MicromouseResponse::Desync(ids)) => assert_eq!(ids, vec![CommandId(1), CommandId(2)]),
        _ => panic!("desync"),
    }
    assert_eq!(text(parse("DESYNC")), "DESYNC");
    assert_eq!(text(parse("DESYNC #1 x")), "Err caused by (FormatError: x)");
    assert_eq!(text(parse("HELLO")), "HELLO");
}

#[test]
fn measurement_messages_to_text_and_back() {
    let m = MeasurementMessage {
        from_cmd: CommandId(1),
        interrupt: MeasurementOccurrence { direction: RelativeDirection::Left, at_step: 2 },
        depth: 3,
        is_sensorlimit: false,
    };
    assert_eq!(m.to_text(), "MEASUREMENT #1 2_L 3 ");
    let limited = MeasurementMessage { is_sensorlimit: true, ..m };
    assert_eq!(limited.to_text(), "MEASUREMENT #1 2_L 3 SENSORLIMIT");
    for msg in [m, limited] {
        match MicromouseResponse::try_from_text(msg.to_text()) {
            Ok(MicromouseResponse::Measurement(back)) => assert_eq!(back, msg),
            _ => panic!("round trip"),
        }
    }
}

#[test]
fn errors_name_their_cause() {
    let inner: Result<u8, FormatError<CommandId>> = Err(FormatError::new(s("abc")));
    let outer = FormatError::<CommandMessage>::caused_by(inner);
    assert_eq!(outer.err().unwrap().faulty_text, "Err caused by (FormatError: abc)");
    let ok: Result<u8, FormatError<CommandId>> = Ok(4);
    assert_eq!(FormatError::<CommandMessage>::caused_by(ok).ok(), Some(4));
}
