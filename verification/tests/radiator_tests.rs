use prometheus_radiator_exporter::radiator::{
    check_login, is_nul_free, login_frame, message_processor, same_bytes, write_command, Action,
    Error, Event, Exchange, Phase, ReaderAction, ATTEMPTS,
};
use prometheus_radiator_exporter::util::HexDumper;

fn write_of(action: Action) -> Vec<u8> {
    match action {
        Action::Write(frame) => frame,
        other => panic!("{:?}", other),
    }
}

#[test]
fn login_frame_switches_mode_and_logs_in() {
    assert_eq!(login_frame("mikem", "fred"), b"BINARY\r\nLOGIN mikem fred\0".to_vec());
    assert_eq!(login_frame("", ""), b"BINARY\r\nLOGIN  \0".to_vec());
    assert_eq!(
        login_frame("üser", "pässwörd"),
        "BINARY\r\nLOGIN üser pässwörd\0".as_bytes().to_vec()
    );
}

#[test]
fn login_answers() {
    assert!(matches!(check_login(b"LOGGEDIN\0".to_vec()), Ok(())));
    assert!(matches!(check_login(b"BADLOGIN\0".to_vec()), Err(Error::InvalidCredentials)));
    for other in [&b"LOGGEDIN"[..], b"", b"\0", b"LOGGEDIN\0\0", b"loggedin\0", b"BADLOGIN", b"HELLO\0", b" LOGGEDIN\0"] {
        match check_login(other.to_vec()) {
            Err(Error::UnexpectedLoginResponse { response }) => assert_eq!(response, other),
            unexpected => panic!("{:?}", unexpected),
        }
    }
}

#[test]
fn errors_in_words() {
    assert_eq!(Error::Io("broken pipe".to_string()).to_string(), "I/O error: broken pipe");
    assert_eq!(Error::InvalidCredentials.to_string(), "invalid credentials");
    assert_eq!(
        Error::UnexpectedLoginResponse { response: vec![1, 2] }.to_string(),
        "unexpected login response"
    );
    assert_eq!(Error::ReaderGone.to_string(), "the reader has disappeared");
}

#[test]
fn commands_end_with_a_nul() {
    assert_eq!(write_command(b"STATS ."), b"STATS .\0".to_vec());
    assert_eq!(write_command(b""), vec![0u8]);
    assert!(is_nul_free(b"STATS ."));
    assert!(is_nul_free(b""));
    assert!(!is_nul_free(b"STATS\0."));
    assert!(!is_nul_free(b"\0"));
}

#[test]
fn bytes_compare() {
    assert!(same_bytes(b"", b""));
    assert!(same_bytes(b"abc", b"abc"));
    assert!(!same_bytes(b"abc", b"abd"));
    assert!(!same_bytes(b"abc", b"ab"));
    assert!(!same_bytes(b"", b"a"));
}

#[test]
fn reader_passes_answers_on_and_drops_notifications() {
    match message_processor(b"STATS .\nk:1\0".to_vec()) {
        ReaderAction::Forward(frame) => assert_eq!(frame, b"STATS .\nk:1".to_vec()),
        other => panic!("{:?}", other),
    }
    assert!(matches!(message_processor(b"LOG something happened\0".to_vec()), ReaderAction::Discard));
    assert!(matches!(message_processor(b"LOG \0".to_vec()), ReaderAction::Discard));
    match message_processor(b"LOG\0".to_vec()) {
        ReaderAction::Forward(frame) => assert_eq!(frame, b"LOG".to_vec()),
        other => panic!("{:?}", other),
    }
    match message_processor(b"log x\0".to_vec()) {
        ReaderAction::Forward(frame) => assert_eq!(frame, b"log x".to_vec()),
        other => panic!("{:?}", other),
    }
    match message_processor(b"\0".to_vec()) {
        ReaderAction::Forward(frame) => assert_eq!(frame, Vec::<u8>::new()),
        other => panic!("{:?}", other),
    }
    match message_processor(b"NOSUCHOBJECT\0".to_vec()) {
        ReaderAction::Forward(frame) => assert_eq!(frame, b"NOSUCHOBJECT".to_vec()),
        other => panic!("{:?}", other),
    }
}

#[test]
fn reader_sees_the_end_of_the_stream() {
    assert!(matches!(message_processor(Vec::new()), ReaderAction::ConnectionLost));
    assert!(matches!(message_processor(b"STATS .\nk:1".to_vec()), ReaderAction::ConnectionLost));
    assert!(matches!(message_processor(b"LOG x".to_vec()), ReaderAction::ConnectionLost));
}

#[test]
fn exchange_without_trouble() {
    let (mut exchange, first) = Exchange::communicate(b"STATS .");
    assert_eq!(write_of(first), b"STATS .\0".to_vec());
    assert_eq!(exchange.phase(), Phase::FirstWrite);
    assert!(matches!(exchange.communicate_inner(Event::Written), Action::TakeSignal));
    assert_eq!(exchange.phase(), Phase::CheckingSignal);
    assert!(matches!(exchange.communicate_inner(Event::Signal(false)), Action::Receive));
    assert_eq!(exchange.phase(), Phase::AwaitingReply);
    match exchange.communicate_inner(Event::Delivered(b"STATS .\nk:1".to_vec())) {
        Action::Finish(Ok(answer)) => assert_eq!(answer, b"STATS .\nk:1".to_vec()),
        other => panic!("{:?}", other),
    }
    assert_eq!(exchange.phase(), Phase::Done);
}

#[test]
fn write_failure_then_reconnect_gives_the_fresh_answer() {
    let (mut exchange, first) = Exchange::communicate(b"STATS .");
    assert_eq!(write_of(first), b"STATS .\0".to_vec());
    assert!(matches!(
        exchange.communicate_inner(Event::WriteFailed("broken pipe".to_string())),
        Action::Reconnect
    ));
    assert_eq!(exchange.phase(), Phase::Reconnecting);
    let again = exchange.communicate_inner(Event::Reconnected);
    assert_eq!(write_of(again), b"STATS .\0".to_vec());
    assert_eq!(exchange.phase(), Phase::SecondWrite);
    assert!(matches!(exchange.communicate_inner(Event::Written), Action::TakeSignal));
    assert!(matches!(exchange.communicate_inner(Event::Signal(false)), Action::Receive));
    match exchange.communicate_inner(Event::Delivered(b"fresh".to_vec())) {
        Action::Finish(Ok(answer)) => assert_eq!(answer, b"fresh".to_vec()),
        other => panic!("{:?}", other),
    }
}

#[test]
fn reconnect_failure_ends_the_exchange() {
    let (mut exchange, _) = Exchange::communicate(b"STATS .");
    exchange.communicate_inner(Event::WriteFailed("reset".to_string()));
    match exchange.communicate_inner(Event::ReconnectFailed(Error::InvalidCredentials)) {
        Action::Finish(Err(Error::InvalidCredentials)) => {}
        other => panic!("{:?}", other),
    }
    assert_eq!(exchange.phase(), Phase::Done);
}

#[test]
fn second_write_failure_ends_the_exchange() {
    let (mut exchange, _) = Exchange::communicate(b"STATS .");
    exchange.communicate_inner(Event::WriteFailed("reset".to_string()));
    exchange.communicate_inner(Event::Reconnected);
    match exchange.communicate_inner(Event::WriteFailed("again".to_string())) {
        Action::Finish(Err(Error::Io(detail))) => assert_eq!(detail, "again"),
        other => panic!("{:?}", other),
    }
}

#[test]
fn reader_gone_is_tried_three_times() {
    assert_eq!(ATTEMPTS, 3);
    let (mut exchange, first) = Exchange::communicate(b"X");
    let mut writes = vec![write_of(first)];
    let mut last = None;
    for _ in 0..10 {
        exchange.communicate_inner(Event::Written);
        match exchange.communicate_inner(Event::Signal(true)) {
            Action::Write(frame) => writes.push(frame),
            other => {
                last = Some(other);
                break;
            }
        }
    }
    assert_eq!(writes, vec![b"X\0".to_vec(); 3]);
    assert!(matches!(last, Some(Action::Finish(Err(Error::ReaderGone)))));
    assert_eq!(exchange.phase(), Phase::Done);
}

#[test]
fn closed_channel_counts_as_reader_gone() {
    let (mut exchange, _) = Exchange::communicate(b"X");
    exchange.communicate_inner(Event::Written);
    exchange.communicate_inner(Event::Signal(false));
    assert_eq!(write_of(exchange.communicate_inner(Event::ChannelClosed)), b"X\0".to_vec());
    exchange.communicate_inner(Event::Written);
    assert_eq!(write_of(exchange.communicate_inner(Event::Signal(true))), b"X\0".to_vec());
    exchange.communicate_inner(Event::Written);
    exchange.communicate_inner(Event::Signal(false));
    assert!(matches!(
        exchange.communicate_inner(Event::ChannelClosed),
        Action::Finish(Err(Error::ReaderGone))
    ));
}

#[test]
fn exchange_knows_what_it_waits_for() {
    let (mut exchange, _) = Exchange::communicate(b"X");
    assert!(exchange.expects(&Event::Written));
    assert!(exchange.expects(&Event::WriteFailed(String::new())));
    assert!(!exchange.expects(&Event::Delivered(vec![])));
    assert!(!exchange.expects(&Event::Signal(false)));
    assert!(!exchange.expects(&Event::Reconnected));
    exchange.communicate_inner(Event::Written);
    assert!(exchange.expects(&Event::Signal(true)));
    assert!(!exchange.expects(&Event::Written));
    exchange.communicate_inner(Event::Signal(false));
    assert!(exchange.expects(&Event::Delivered(vec![])));
    assert!(exchange.expects(&Event::ChannelClosed));
    assert!(!exchange.expects(&Event::Signal(false)));
    exchange.communicate_inner(Event::Delivered(vec![]));
    assert!(!exchange.expects(&Event::Written));
    assert!(!exchange.expects(&Event::Delivered(vec![])));
}

#[test]
fn each_caller_gets_its_own_answer() {
    // A stub connection that answers every command with the command itself;
    // one exchange at a time holds it.
    let mut wire: Vec<Vec<u8>> = Vec::new();
    for n in 0..50usize {
        let command = format!("REQUEST {}", n).into_bytes();
        let (mut exchange, first) = Exchange::communicate(&command);
        let frame = write_of(first);
        match message_processor(frame) {
            ReaderAction::Forward(echo) => wire.push(echo),
            other => panic!("{:?}", other),
        }
        exchange.communicate_inner(Event::Written);
        exchange.communicate_inner(Event::Signal(false));
        let delivered = wire.remove(0);
        match exchange.communicate_inner(Event::Delivered(delivered)) {
            Action::Finish(Ok(answer)) => assert_eq!(answer, command),
            other => panic!("{:?}", other),
        }
        assert!(wire.is_empty());
    }
}

#[test]
fn bytes_in_hexadecimal() {
    assert_eq!(HexDumper::new(b"").to_string(), "[]");
    assert_eq!(HexDumper::new(b"\0").to_string(), "[00]");
    assert_eq!(HexDumper::new(b"LOG \xff\x0a\x9f").to_string(), "[4C 4F 47 20 FF 0A 9F]");
    let all: Vec<u8> = (0..=255u8).collect();
    let expected: Vec<String> = all.iter().map(|b| format!("{:02X}", b)).collect();
    assert_eq!(HexDumper::new(&all).to_string(), format!("[{}]", expected.join(" ")));
    assert_eq!(HexDumper::new(b"ab").slice, b"ab");
}
