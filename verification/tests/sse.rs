use schemgen::jobs::Status;
use schemgen::sse::{emit, keep_alive, open, poll, woke, Step, Wake};

#[test]
fn a_stream_opens_with_the_current_state_and_ends_with_the_final_one() {
    let c = open();
    assert_eq!(poll(c), Step::Send);
    let (c, frame) = emit(c, Status::Running, "{\"progress\":10}");
    assert_eq!(frame, "retry: 3000\n\nevent: progress\ndata: {\"progress\":10}\n\n");
    assert_eq!(poll(c), Step::Wait);
    assert_eq!(woke(Wake::Quiet), Step::KeepAlive);
    assert_eq!(keep_alive(), ": keep-alive\n\n");
    assert_eq!(woke(Wake::Changed), Step::Send);
    let (c, frame) = emit(c, Status::Done, "{}");
    assert_eq!(frame, "event: done\ndata: {}\n\n");
    assert_eq!(poll(c), Step::Close);
}

#[test]
fn every_final_status_has_its_own_event() {
    for (status, name) in [
        (Status::Queued, "progress"),
        (Status::Running, "progress"),
        (Status::Done, "done"),
        (Status::Error, "error"),
        (Status::Cancelled, "cancelled"),
    ] {
        let (c, frame) = emit(open(), status, "x");
        assert!(frame.contains(&format!("event: {name}\n")), "{frame}");
        assert_eq!(poll(c) == Step::Close, status.is_finished());
    }
    assert_eq!(woke(Wake::Gone), Step::Close);
}
