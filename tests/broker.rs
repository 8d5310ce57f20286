use clipshare::code::{code_from_alphanumeric, draw_code, format_code, parse_code, CODE_SPACE};
use std::cell::RefCell;
use std::rc::Rc;

use clipshare::engine::{close_session, Engine};
use clipshare::message::{Error, Message, Msg};
use clipshare::session::{relay_step, Phase, RelayEvent, Session, SessionEvent};

fn update(text: &str) -> Message {
    Message { msg: Some(Msg::Update(text.to_string())) }
}

fn error_msg(text: &str) -> Message {
    Message { msg: Some(Msg::Error(text.to_string())) }
}

fn running() -> Session<()> {
    let mut s = Session::new();
    s.start();
    s
}

#[test]
fn generated_code_is_registered() {
    let mut engine: Engine<u32> = Engine::new();
    let code = engine.generate(7);
    assert!(engine.check(&code));
    assert_eq!(code.len(), 8);
    assert!(parse_code(&code).is_some());
    assert_eq!(engine.connect(&code), Ok(&7));
}

#[test]
fn generated_codes_are_distinct() {
    let mut engine: Engine<u32> = Engine::new();
    let mut codes: Vec<String> = Vec::new();
    for i in 0..200u32 {
        codes.push(engine.generate(i));
    }
    for (i, a) in codes.iter().enumerate() {
        assert!(engine.check(a));
        for b in codes.iter().skip(i + 1) {
            assert_ne!(a, b);
        }
    }
}

#[test]
fn code_text_has_the_documented_shape() {
    assert_eq!(format_code(0), "00-00-00");
    assert_eq!(format_code(CODE_SPACE - 1), "zz-zz-zz");
    assert_eq!(format_code(623714775), "ab-cd-ef");
    assert_eq!(parse_code("ab-cd-ef"), Some(623714775));
    assert_eq!(parse_code("zz-zz-zz"), Some(CODE_SPACE - 1));
    assert_eq!(parse_code("AB-CD-EF"), None);
    assert_eq!(parse_code("abcdef"), None);
    assert_eq!(parse_code("ab-cd-efg"), None);
    assert_eq!(parse_code("ab_cd_ef"), None);
    assert_eq!(parse_code(""), None);
}

#[test]
fn drawn_codes_round_trip() {
    for _ in 0..100 {
        let n = draw_code();
        assert!(n < CODE_SPACE);
        let text = format_code(n);
        let chars: Vec<char> = text.chars().collect();
        assert_eq!(chars.len(), 8);
        assert_eq!(chars[2], '-');
        assert_eq!(chars[5], '-');
        assert!(chars.iter().all(|c| *c == '-' || c.is_ascii_digit() || c.is_ascii_lowercase()));
        assert_eq!(parse_code(&text), Some(n));
    }
}

#[test]
fn alphanumeric_bytes_are_read_without_case() {
    let n = code_from_alphanumeric(&b"AbCd12".to_vec());
    assert_eq!(format_code(n), "ab-cd-12");
    assert_eq!(code_from_alphanumeric(&b"000000".to_vec()), 0);
    assert_eq!(code_from_alphanumeric(&b"ZZZZZZ".to_vec()), CODE_SPACE - 1);
}

#[test]
fn connect_to_unknown_code_fails() {
    let engine: Engine<u32> = Engine::new();
    assert_eq!(engine.connect("zz-zz-zz"), Err(Error::InvalidId));
    assert!(!engine.check("zz-zz-zz"));
    let sent = Error::InvalidId.serialize();
    assert_eq!(sent, error_msg("Invalid ID"));
}

#[test]
fn connect_to_removed_code_fails() {
    let mut engine: Engine<u32> = Engine::new();
    let code = engine.generate(1);
    assert_eq!(engine.remove(&code), Some(1));
    assert!(!engine.check(&code));
    assert_eq!(engine.connect(&code), Err(Error::InvalidId));
    assert_eq!(engine.remove(&code), None);
    assert_eq!(engine.remove("not a code"), None);
}

#[test]
fn stopped_session_admits_no_client() {
    let mut s = running();
    assert_eq!(s.connect_with_id(1, ()), Ok(()));
    s.stop();
    assert_eq!(s.connect_with_id(2, ()), Err(Error::InvalidId));
    assert!(!s.has_client(2));
    s.finish();
    assert_eq!(s.phase(), Phase::Stopped);
    assert_eq!(s.connect(()), Err(Error::InvalidId));
    assert!(s.client_ids().is_empty());
}

#[test]
fn starting_session_admits_no_client() {
    let mut s: Session<()> = Session::new();
    assert_eq!(s.phase(), Phase::Starting);
    assert_eq!(s.connect_with_id(1, ()), Err(Error::InvalidId));
    s.start();
    assert_eq!(s.phase(), Phase::Running);
    assert_eq!(s.connect_with_id(1, ()), Ok(()));
}

#[test]
fn taken_client_id_is_refused() {
    let mut s = running();
    assert_eq!(s.connect_with_id(5, ()), Ok(()));
    assert_eq!(s.connect_with_id(5, ()), Err(Error::InvalidCid));
    assert_eq!(s.client_ids(), vec![5]);
    let fresh = s.connect(()).unwrap();
    assert_ne!(fresh, 5);
}

#[test]
fn fresh_client_ids_are_distinct() {
    let mut s = running();
    let a = s.connect(()).unwrap();
    let b = s.connect(()).unwrap();
    assert_ne!(a, b);
    assert_eq!(s.client_ids(), vec![a, b]);
    assert!(s.has_client(a) && s.has_client(b));
}

#[test]
fn update_goes_to_the_other_client_only() {
    let mut engine: Engine<Rc<RefCell<Session<()>>>> = Engine::new();
    let code = engine.generate(Rc::new(RefCell::new(running())));
    assert!(engine.check(&code));
    let session = engine.connect(&code).unwrap().clone();
    let client1 = session.borrow_mut().connect(()).unwrap();
    let client2 = session.borrow_mut().connect(()).unwrap();
    assert_ne!(client1, client2);
    assert_eq!(session.borrow().client_ids(), vec![client1, client2]);
    let out = session.borrow_mut().route(client1, Ok(update("hello")));
    assert_eq!(out, vec![(client2, update("hello"))]);
    assert!(out.iter().all(|(id, _)| *id != client1));
    assert_eq!(session.borrow().contents(), "hello");
}

#[test]
fn update_reaches_every_other_client() {
    let mut s = running();
    for id in 1..=4u128 {
        s.connect_with_id(id, ()).unwrap();
    }
    let out = s.route(3, Ok(update("x")));
    assert_eq!(out, vec![(1, update("x")), (2, update("x")), (4, update("x"))]);
}

#[test]
fn broken_client_is_evicted_and_others_still_served() {
    let mut s = running();
    for id in 1..=3u128 {
        s.connect_with_id(id, ()).unwrap();
    }
    let out = s.route(1, Ok(update("a")));
    assert_eq!(out, vec![(2, update("a")), (3, update("a"))]);
    assert_eq!(s.disconnect(3), Some(()));
    assert!(!s.has_client(3));
    assert_eq!(s.client_ids(), vec![1, 2]);
    assert_eq!(s.phase(), Phase::Running);
    let out = s.route(1, Ok(update("b")));
    assert_eq!(out, vec![(2, update("b"))]);
    assert_eq!(s.disconnect(3), None);
}

#[test]
fn last_client_leaving_stops_the_session() {
    let mut engine: Engine<Rc<RefCell<Session<()>>>> = Engine::new();
    let code = engine.generate(Rc::new(RefCell::new(running())));
    let session = engine.connect(&code).unwrap().clone();
    let a = session.borrow_mut().connect(()).unwrap();
    let b = session.borrow_mut().connect(()).unwrap();
    assert_eq!(session.borrow_mut().disconnect(a), Some(()));
    assert_eq!(session.borrow().phase(), Phase::Running);
    assert_eq!(session.borrow_mut().disconnect(b), Some(()));
    assert_eq!(session.borrow().phase(), Phase::Stopping);
    assert!(session.borrow_mut().step(SessionEvent::Received(a, Ok(update("late")))).is_none());
    let left = close_session(&mut engine, &code, &mut session.borrow_mut());
    assert!(left.is_empty());
    assert_eq!(session.borrow().phase(), Phase::Stopped);
    assert!(!engine.check(&code));
    assert_eq!(engine.connect(&code).err(), Some(Error::InvalidId));
}

#[test]
fn closing_hands_back_remaining_clients() {
    let mut engine: Engine<u32> = Engine::new();
    let code = engine.generate(3);
    let other = engine.generate(4);
    let mut s = running();
    s.connect_with_id(1, ()).unwrap();
    s.connect_with_id(2, ()).unwrap();
    assert_eq!(close_session(&mut engine, &code, &mut s), vec![(1, ()), (2, ())]);
    assert!(!engine.check(&code));
    assert!(engine.check(&other));
    assert_eq!(engine.len(), 1);
    assert_eq!(s.phase(), Phase::Stopped);
}

#[test]
fn taken_drawn_id_falls_back_to_a_free_one() {
    let mut s = running();
    assert_eq!(s.join(0, ()), Ok(0));
    assert_eq!(s.join(7, ()), Ok(7));
    assert_eq!(s.join(7, ()), Ok(1));
    assert_eq!(s.join(0, ()), Ok(2));
    assert_eq!(s.client_ids(), vec![0, 7, 1, 2]);
    s.stop();
    assert_eq!(s.join(9, ()), Err(Error::InvalidId));
}

#[test]
fn failed_clients_are_evicted_together() {
    let mut s = running();
    for id in 1..=4u128 {
        s.connect_with_id(id, ()).unwrap();
    }
    let (evicted, over) = s.evict(&vec![2, 4, 9]);
    assert_eq!(evicted, vec![(2, ()), (4, ())]);
    assert!(!over);
    assert_eq!(s.client_ids(), vec![1, 3]);
    let (evicted, over) = s.evict(&vec![1, 3]);
    assert_eq!(evicted.len(), 2);
    assert!(over);
    assert_eq!(s.phase(), Phase::Stopping);
}

#[test]
fn session_task_decisions() {
    let mut s = running();
    s.connect_with_id(1, ()).unwrap();
    s.connect_with_id(2, ()).unwrap();
    let out = s.step(SessionEvent::Received(2, Ok(update("y"))));
    assert_eq!(out, Some(vec![(1, update("y"))]));
    assert!(s.step(SessionEvent::Cancelled).is_none());
    assert!(s.step(SessionEvent::MailboxClosed).is_none());
    assert_eq!(s.client_ids(), vec![1, 2]);
    assert_eq!(s.contents(), "y");
}

#[test]
fn stop_hands_back_every_client() {
    let mut s = running();
    s.connect_with_id(4, ()).unwrap();
    s.connect_with_id(8, ()).unwrap();
    assert_eq!(s.stop(), vec![(4, ()), (8, ())]);
    assert_eq!(s.phase(), Phase::Stopping);
    assert!(s.client_ids().is_empty());
}

#[test]
fn empty_message_is_reported_to_sender() {
    let mut s = running();
    s.connect_with_id(1, ()).unwrap();
    s.connect_with_id(2, ()).unwrap();
    let out = s.route(2, Ok(Message { msg: None }));
    assert_eq!(out, vec![(2, error_msg("Unexpected message"))]);
    assert_eq!(s.contents(), "");
}

#[test]
fn failure_is_reported_to_sender_only() {
    let mut s = running();
    s.connect_with_id(1, ()).unwrap();
    s.connect_with_id(2, ()).unwrap();
    let out = s.route(1, Err(Error::Unknown("broken".to_string())));
    assert_eq!(out, vec![(1, error_msg("Internal Server Error"))]);
    let out = s.route(1, Err(Error::UnexpectedMessage("text".to_string())));
    assert_eq!(out, vec![(1, error_msg("Unexpected message"))]);
    let out = s.route(9, Err(Error::InvalidCid));
    assert!(out.is_empty());
}

#[test]
fn error_message_from_client_is_not_relayed() {
    let mut s = running();
    s.connect_with_id(1, ()).unwrap();
    s.connect_with_id(2, ()).unwrap();
    assert!(s.route(1, Ok(error_msg("oops"))).is_empty());
    assert_eq!(s.contents(), "");
}

#[test]
fn errors_serialize_to_their_descriptions() {
    assert_eq!(Error::InvalidId.serialize(), error_msg("Invalid ID"));
    assert_eq!(Error::UnexpectedMessage("x".to_string()).serialize(), error_msg("Unexpected message"));
    assert_eq!(Error::InvalidCid.serialize(), error_msg("Internal Server Error"));
    assert_eq!(Error::Unknown("x".to_string()).serialize(), error_msg("Internal Server Error"));
}

#[test]
fn relay_decisions() {
    let a = relay_step(RelayEvent::Received(Ok(update("x"))));
    assert_eq!(a.forward, Some(Ok(update("x"))));
    assert!(!a.stop && !a.cancel_client);
    let a = relay_step(RelayEvent::Received(Err(Error::UnexpectedMessage("x".to_string()))));
    assert!(a.forward.is_some() && !a.stop);
    let a = relay_step(RelayEvent::Received(Err(Error::Unknown("gone".to_string()))));
    assert!(a.forward.is_some() && a.stop && a.cancel_client);
    let a = relay_step(RelayEvent::StreamEnded);
    assert!(a.forward.is_none() && a.stop && a.cancel_client);
    let a = relay_step(RelayEvent::SessionCancelled);
    assert!(a.forward.is_none() && a.stop && a.cancel_client);
    let a = relay_step(RelayEvent::ClientCancelled);
    assert!(a.forward.is_none() && a.stop && !a.cancel_client);
}
