use renju_move_matching::protocol::{settle, Command, EngineError, Response, ResponseParseErr};

fn wire(c: Command) -> String {
    String::from_utf8(c.to_wire()).unwrap()
}

#[test]
fn start_command_declares_board_size() {
    assert_eq!(wire(Command::Start(15)), "START 15\r\n");
}

#[test]
fn info_command_lists_key_and_value() {
    let c = Command::Info {
        key: "timeout_turn",
        value: "5000",
    };
    assert_eq!(wire(c), "INFO timeout_turn 5000\r\n");
}

#[test]
fn fixed_commands() {
    assert_eq!(wire(Command::Begin), "BEGIN\r\n");
    assert_eq!(wire(Command::Stop), "yxstop\r\n");
    assert_eq!(wire(Command::ShowForbidden), "yxshowforbid\r\n");
    assert_eq!(wire(Command::HashClear), "yxhashclear\r\n");
    assert_eq!(wire(Command::End), "END\r\n");
    assert_eq!(wire(Command::Restart), "RESTART\r\n");
    assert_eq!(wire(Command::Turn((7, 12))), "TURN 7,12\r\n");
}

#[test]
fn board_command_alternates_sides() {
    let moves = [(7u8, 7u8), (8, 8), (100, 255)];
    assert_eq!(
        wire(Command::Board(&moves)),
        "BOARD\r\n7,7,1\r\n8,8,2\r\n100,255,1\r\nDONE\r\n"
    );
    assert_eq!(
        wire(Command::YixinBoard(&moves[..2])),
        "yxboard\r\n7,7,1\r\n8,8,2\r\nDONE\r\n"
    );
    assert_eq!(wire(Command::Board(&[])), "BOARD\r\nDONE\r\n");
}

#[test]
fn silent_commands() {
    assert!(!Command::Info { key: "rule", value: "2" }.expects_response());
    assert!(!Command::End.expects_response());
    assert!(!Command::Stop.expects_response());
    assert!(!Command::HashClear.expects_response());
    assert!(!Command::YixinBoard(&[]).expects_response());
    assert!(Command::Board(&[]).expects_response());
    assert!(Command::Start(15).expects_response());
    assert!(Command::Turn((1, 2)).expects_response());
}

#[test]
fn parse_acknowledgement_any_case() {
    assert!(matches!(Response::parse("OK\r\n"), Ok(Response::Acknowledged)));
    assert!(matches!(Response::parse("ok"), Ok(Response::Acknowledged)));
    assert!(matches!("  Ok  ".parse::<Response>(), Ok(Response::Acknowledged)));
}

#[test]
fn parse_bare_coordinates_as_move() {
    assert!(matches!(Response::parse("3,4\r\n"), Ok(Response::Move((3, 4)))));
    assert!(matches!(Response::parse("+3,04"), Ok(Response::Move((3, 4)))));
    assert!(matches!(Response::parse("1,2,3"), Ok(Response::Move((1, 2)))));
    assert!(matches!(Response::parse("255,0"), Ok(Response::Move((255, 0)))));
}

#[test]
fn parse_suggest() {
    assert!(matches!(Response::parse("SUGGEST 7,8\r\n"), Ok(Response::Suggest((7, 8)))));
    assert!(matches!(
        Response::parse("suggest\r\n"),
        Err(ResponseParseErr::MissingArgument)
    ));
    assert!(matches!(
        Response::parse("suggest 7"),
        Err(ResponseParseErr::MissingCoordinate)
    ));
}

#[test]
fn parse_informational_lines_keep_the_rest_of_the_line() {
    match Response::parse("DEBUG depth 12  nodes 5\r\n") {
        Ok(Response::Debug(s)) => assert_eq!(s, "depth 12 nodes 5"),
        _ => panic!("not a debug line"),
    }
    match Response::parse("message hello") {
        Ok(Response::Message(s)) => assert_eq!(s, "hello"),
        _ => panic!("not a message line"),
    }
    match Response::parse("ERROR bad board\r\n") {
        Ok(Response::Error(s)) => assert_eq!(s, "bad board"),
        _ => panic!("not an error line"),
    }
    match Response::parse("UNKNOWN yxfoo") {
        Ok(Response::Unknown(s)) => assert_eq!(s, "yxfoo"),
        _ => panic!("not an unknown line"),
    }
    match Response::parse("error") {
        Ok(Response::Error(s)) => assert_eq!(s, ""),
        _ => panic!("not an error line"),
    }
    match Response::parse("debug é ü\r\n") {
        Ok(Response::Debug(s)) => assert_eq!(s, "é ü"),
        _ => panic!("not a debug line"),
    }
}

#[test]
fn parse_empty_line() {
    assert!(matches!(Response::parse(""), Ok(Response::Empty)));
    assert!(matches!(Response::parse(" \t\r\n"), Ok(Response::Empty)));
}

#[test]
fn parse_bad_coordinates() {
    assert!(matches!(
        Response::parse("7\r\n"),
        Err(ResponseParseErr::MissingCoordinate)
    ));
    match Response::parse("a,4") {
        Err(ResponseParseErr::InvalidCoordinate(s)) => assert_eq!(s, "a"),
        _ => panic!("expected an invalid coordinate"),
    }
    match Response::parse("3,256") {
        Err(ResponseParseErr::InvalidCoordinate(s)) => assert_eq!(s, "256"),
        _ => panic!("expected an invalid coordinate"),
    }
    match Response::parse("3,") {
        Err(ResponseParseErr::InvalidCoordinate(s)) => assert_eq!(s, ""),
        _ => panic!("expected an invalid coordinate"),
    }
    match Response::parse("-1,2") {
        Err(ResponseParseErr::InvalidCoordinate(s)) => assert_eq!(s, "-1"),
        _ => panic!("expected an invalid coordinate"),
    }
    match Response::parse("+,2") {
        Err(ResponseParseErr::InvalidCoordinate(s)) => assert_eq!(s, "+"),
        _ => panic!("expected an invalid coordinate"),
    }
}

#[test]
fn every_coordinate_pair_round_trips() {
    for x in 0..=255u8 {
        for y in 0..=255u8 {
            let board = [(x, y)];
            let text = String::from_utf8(Command::Board(&board).to_wire()).unwrap();
            let line = text.lines().nth(1).unwrap();
            let reply = line.rsplitn(2, ',').nth(1).unwrap().to_string() + "\r\n";
            match Response::parse(&reply) {
                Ok(Response::Move(p)) => assert_eq!(p, (x, y)),
                _ => panic!("{x},{y} did not read back"),
            }
        }
    }
}

#[test]
fn settle_folds_suggestions_and_skips_chatter() {
    assert!(matches!(
        settle(Ok(Response::Suggest((1, 2)))),
        Some(Ok(Response::Move((1, 2))))
    ));
    assert!(matches!(settle(Ok(Response::Move((3, 4)))), Some(Ok(Response::Move((3, 4))))));
    assert!(settle(Ok(Response::Debug("x".to_string()))).is_none());
    assert!(settle(Ok(Response::Message("x".to_string()))).is_none());
    assert!(matches!(settle(Ok(Response::Acknowledged)), Some(Ok(Response::Acknowledged))));
    assert!(matches!(settle(Ok(Response::Empty)), Some(Ok(Response::Empty))));
    match settle(Ok(Response::Error("boom".to_string()))) {
        Some(Err(EngineError::Error(s))) => assert_eq!(s, "boom"),
        _ => panic!("expected an engine error"),
    }
    match settle(Ok(Response::Unknown("cmd".to_string()))) {
        Some(Err(EngineError::Unknown(s))) => assert_eq!(s, "cmd"),
        _ => panic!("expected an unknown command"),
    }
    assert!(matches!(
        settle(Err(ResponseParseErr::MissingCoordinate)),
        Some(Err(EngineError::ResponseParseError(
            ResponseParseErr::MissingCoordinate
        )))
    ));
}

#[test]
fn handshake_declares_board_time_threads_and_rule() {
    let text: Vec<String> = renju_move_matching::protocol::handshake("5000")
        .into_iter()
        .map(wire)
        .collect();
    assert_eq!(
        text,
        vec![
            "START 15\r\n",
            "INFO timeout_turn 5000\r\n",
            "INFO thread_num 1\r\n",
            "INFO rule 2\r\n"
        ]
    );
}

#[test]
fn from_str_reads_as_parse_does() {
    assert!(matches!("oK".parse::<Response>(), Ok(Response::Acknowledged)));
    assert!(matches!("SUGGEST 3,4\r\n".parse::<Response>(), Ok(Response::Suggest((3, 4)))));
    assert!(matches!("14,0\r\n".parse::<Response>(), Ok(Response::Move((14, 0)))));
    assert!(matches!("\r\n".parse::<Response>(), Ok(Response::Empty)));
    match "ERROR  bad   board\r\n".parse::<Response>() {
        Ok(Response::Error(s)) => assert_eq!(s, "bad board"),
        _ => panic!("not an error line"),
    }
    match "7,x\r\n".parse::<Response>() {
        Err(ResponseParseErr::InvalidCoordinate(s)) => assert_eq!(s, "x"),
        _ => panic!("expected an invalid coordinate"),
    }
    assert!(matches!(
        "SUGGEST\r\n".parse::<Response>(),
        Err(ResponseParseErr::MissingArgument)
    ));
}

#[test]
fn commands_compare_by_value() {
    let a = [(1u8, 2u8)];
    let b = [(1u8, 2u8)];
    assert!(Command::Board(&a) == Command::Board(&b));
    assert!(Command::Start(15) < Command::Begin);
}

#[test]
fn informational_words_are_joined_by_single_spaces() {
    match Response::parse("DEBUG a \t b\r\n") {
        Ok(Response::Debug(s)) => assert_eq!(s, "a b"),
        _ => panic!("not a debug line"),
    }
    match "UNKNOWN cmd\r\n".parse::<Response>() {
        Ok(Response::Unknown(s)) => assert_eq!(s, "cmd"),
        _ => panic!("not an unknown line"),
    }
    match "message   hi  \r\n".parse::<Response>() {
        Ok(Response::Message(s)) => assert_eq!(s, "hi"),
        _ => panic!("not a message line"),
    }
}

#[test]
fn responses_clone() {
    match Response::Error("x y".to_string()).clone() {
        Response::Error(s) => assert_eq!(s, "x y"),
        _ => panic!("clone changed the variant"),
    }
    assert!(matches!(Response::Move((3, 4)).clone(), Response::Move((3, 4))));
}
