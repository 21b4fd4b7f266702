use kvs::server::{accept_step, AcceptEvent, ServerAction, POLL_MS};

#[test]
fn accept_step_without_shutdown() {
    assert_eq!(accept_step(false, AcceptEvent::Accepted), ServerAction::Dispatch);
    assert_eq!(accept_step(false, AcceptEvent::WouldBlock), ServerAction::Sleep(10));
    assert_eq!(POLL_MS, 10);
    assert_eq!(accept_step(false, AcceptEvent::Failed), ServerAction::Fail);
}

#[test]
fn accept_step_with_shutdown() {
    assert_eq!(accept_step(true, AcceptEvent::Accepted), ServerAction::Stop);
    assert_eq!(accept_step(true, AcceptEvent::WouldBlock), ServerAction::Stop);
    assert_eq!(accept_step(true, AcceptEvent::Failed), ServerAction::Stop);
}
