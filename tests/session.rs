use ncclient::{frame_request, Action, Error, HostParameters, Outcome, Phase, Session};

#[test]
fn full_exchange() {
    let (mut s, a) = Session::new("abc");
    assert_eq!(a, Action::Connect);
    assert_eq!(s.step(Outcome::Done), Action::Authenticate);
    assert_eq!(s.step(Outcome::Done), Action::OpenChannel);
    assert_eq!(s.step(Outcome::Done), Action::RequestSubsystem);
    assert_eq!(s.step(Outcome::Done), Action::ReadMessage);
    assert_eq!(s.step(Outcome::Received(b"<hello/>]]>]]>".to_vec())), Action::Write(frame_request("abc")));
    assert_eq!(s.step(Outcome::Done), Action::ReadMessage);
    assert_eq!(s.step(Outcome::Received(b"reply##".to_vec())), Action::SendEof);
    assert_eq!(s.step(Outcome::Done), Action::WaitEof);
    assert_eq!(s.step(Outcome::Done), Action::Close);
    assert_eq!(s.step(Outcome::Done), Action::WaitClose);
    assert_eq!(s.step(Outcome::Done), Action::Finish(Ok(b"reply##".to_vec())));
    assert_eq!(s.phase, Phase::Finished);
}

#[test]
fn failed_write_still_closes_the_channel() {
    let (mut s, _) = Session::new("abc");
    for _ in 0..4 {
        s.step(Outcome::Done);
    }
    assert_eq!(s.step(Outcome::Received(b"]]>]]>".to_vec())), Action::Write(frame_request("abc")));
    assert_eq!(s.step(Outcome::Failed(Error::Channel)), Action::SendEof);
    assert_eq!(s.step(Outcome::Failed(Error::Channel)), Action::WaitEof);
    assert_eq!(s.step(Outcome::Done), Action::Close);
    assert_eq!(s.step(Outcome::Done), Action::WaitClose);
    assert_eq!(s.step(Outcome::Done), Action::Finish(Err(Error::Channel)));
}

#[test]
fn connect_failure_ends_at_once() {
    let (mut s, _) = Session::new("abc");
    assert_eq!(s.step(Outcome::Failed(Error::Channel)), Action::Finish(Err(Error::Connection)));
}

#[test]
fn rejected_credentials() {
    let (mut s, _) = Session::new("abc");
    s.step(Outcome::Done);
    assert_eq!(s.step(Outcome::Failed(Error::Channel)), Action::Finish(Err(Error::Authentication)));
}

#[test]
fn truncated_reply_is_reported_after_teardown() {
    let (mut s, _) = Session::new("abc");
    for _ in 0..4 {
        s.step(Outcome::Done);
    }
    s.step(Outcome::Received(b"]]>]]>".to_vec()));
    s.step(Outcome::Done);
    assert_eq!(s.step(Outcome::Failed(Error::IncompleteFrame)), Action::SendEof);
    assert_eq!(s.step(Outcome::Done), Action::WaitEof);
    assert_eq!(s.step(Outcome::Done), Action::Close);
    assert_eq!(s.step(Outcome::Done), Action::WaitClose);
    assert_eq!(s.step(Outcome::Done), Action::Finish(Err(Error::IncompleteFrame)));
    assert_eq!(s.action(), Action::Finish(Err(Error::IncompleteFrame)));
}

#[test]
fn teardown_failure_is_reported() {
    let (mut s, _) = Session::new("abc");
    for _ in 0..4 {
        s.step(Outcome::Done);
    }
    s.step(Outcome::Received(b"]]>]]>".to_vec()));
    s.step(Outcome::Done);
    s.step(Outcome::Received(b"ok##".to_vec()));
    s.step(Outcome::Done);
    s.step(Outcome::Done);
    s.step(Outcome::Failed(Error::Connection));
    assert_eq!(s.step(Outcome::Done), Action::Finish(Err(Error::Channel)));
}

#[test]
fn host_parameters_keep_their_fields() {
    let h = HostParameters::new(830, "admin".to_string(), "pw".to_string());
    assert_eq!(h.port(), 830);
    assert_eq!(h.user(), "admin");
    assert_eq!(h.password(), "pw");
}
