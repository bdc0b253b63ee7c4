use rhp::sockets::{conn_step, first_message, ConnAction, ConnEvent, ConnPhase, SectionValue};
use rhp::sockets::{Roster, Selection};

#[test]
fn selections_over_groups() {
    let mut r = Roster::new();
    r.register(1);
    r.register(2);
    r.register(3);
    r.join(1, "room".to_string());
    r.join(2, "room".to_string());
    r.join(3, "other".to_string());
    assert_eq!(r.members(&Selection::This, 1), vec![1]);
    assert_eq!(r.members(&Selection::Peers, 1), vec![2]);
    assert_eq!(r.members(&Selection::Everyone, 1), vec![1, 2]);
    assert_eq!(r.members(&Selection::Group("other".to_string()), 1), vec![3]);
    assert_eq!(r.members(&Selection::Group("room".to_string()), 1), vec![2]);
    assert_eq!(r.group(3), Some("other".to_string()));
}

#[test]
fn closing_clients_are_not_addressed() {
    let mut r = Roster::new();
    r.register(10);
    r.register(20);
    r.mark_closing(20);
    assert_eq!(r.members(&Selection::Everyone, 10), vec![10]);
    r.remove(10);
    assert_eq!(r.group(10), None);
    assert_eq!(r.members(&Selection::This, 10), Vec::<u128>::new());
}

#[test]
fn new_clients_share_the_empty_group() {
    let mut r = Roster::new();
    r.register(5);
    r.register(6);
    assert_eq!(r.group(5), Some(String::new()));
    assert_eq!(r.members(&Selection::Peers, 5), vec![6]);
}

#[test]
fn open_connection_handles_and_delivers() {
    assert_eq!(
        conn_step(ConnPhase::Open, ConnEvent::Received("hi".to_string())),
        (ConnPhase::Open, ConnAction::HandleMessage("hi".to_string()))
    );
    assert_eq!(conn_step(ConnPhase::Open, ConnEvent::Outgoing), (ConnPhase::Open, ConnAction::Deliver));
    assert_eq!(conn_step(ConnPhase::Open, ConnEvent::Heartbeat), (ConnPhase::Open, ConnAction::Ignore));
    assert_eq!(conn_step(ConnPhase::Open, ConnEvent::OnCloseDone), (ConnPhase::Open, ConnAction::Ignore));
}

#[test]
fn closing_marks_then_removes_once() {
    let (phase, action) = conn_step(ConnPhase::Open, ConnEvent::Gone);
    assert_eq!((phase, action), (ConnPhase::Closing, ConnAction::MarkClosing));
    assert_eq!(
        conn_step(phase, ConnEvent::Received("late".to_string())),
        (ConnPhase::Closing, ConnAction::Ignore)
    );
    assert_eq!(conn_step(phase, ConnEvent::Outgoing), (ConnPhase::Closing, ConnAction::Ignore));
    let (phase, action) = conn_step(phase, ConnEvent::OnCloseDone);
    assert_eq!((phase, action), (ConnPhase::Closed, ConnAction::Remove));
    assert_eq!(conn_step(phase, ConnEvent::OnCloseDone), (ConnPhase::Closed, ConnAction::Ignore));
    assert_eq!(conn_step(phase, ConnEvent::Gone), (ConnPhase::Closed, ConnAction::Ignore));
}

#[test]
fn first_message_from_section_value() {
    assert_eq!(first_message(SectionValue::Null), None);
    assert_eq!(first_message(SectionValue::Text("welcome alice".to_string())), Some("welcome alice".to_string()));
    assert_eq!(
        first_message(SectionValue::Json("{\"event\":\"welcome\"}".to_string())),
        Some("{\"event\":\"welcome\"}".to_string())
    );
}
