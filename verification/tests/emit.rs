use dirtree::emit::{after_failed_write, Reaction, WriteFailure};

#[test]
fn closed_sink_stops_quietly() {
    assert_eq!(after_failed_write(WriteFailure::SinkClosed), Reaction::Stop);
}

#[test]
fn other_failure_is_reported() {
    assert_eq!(after_failed_write(WriteFailure::Other), Reaction::Report);
}
