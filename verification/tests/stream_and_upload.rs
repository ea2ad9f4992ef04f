use ais_forwarder::tcp_stream::{ReceiveBuffer, ReceiveStep, RECEIVE_BUFFER_SIZE};
use ais_forwarder::upload_control::{
    next_step, remaining_wait_millis, AttemptEnd, AttemptStart, NextStep, TaskOutcome,
    UploadControl, UPLOAD_RETRY_SPACING_MILLIS,
};

fn complete(step: ReceiveStep) -> Vec<u8> {
    match step {
        ReceiveStep::Complete(c) => c,
        ReceiveStep::Pending => panic!("pending"),
        ReceiveStep::Closed => panic!("closed"),
    }
}

#[test]
fn receive_buffer_releases_up_to_last_newline() {
    let mut b = ReceiveBuffer::new();
    assert_eq!(b.free_space(), RECEIVE_BUFFER_SIZE);
    assert!(matches!(b.on_read(b"!AIVDM,1"), ReceiveStep::Pending));
    assert_eq!(b.free_space(), RECEIVE_BUFFER_SIZE - 8);
    let chunk = complete(b.on_read(b"\r\n!AIVDM,2\n!AI"));
    assert_eq!(chunk, b"!AIVDM,1\r\n!AIVDM,2".to_vec());
    assert_eq!(b.free_space(), RECEIVE_BUFFER_SIZE - 3);
    let chunk = complete(b.on_read(b"VDM,3\n"));
    assert_eq!(chunk, b"!AIVDM,3".to_vec());
    assert_eq!(b.free_space(), RECEIVE_BUFFER_SIZE);
}

#[test]
fn receive_buffer_empty_read_means_closed() {
    let mut b = ReceiveBuffer::new();
    assert!(matches!(b.on_read(b"abc"), ReceiveStep::Pending));
    assert!(matches!(b.on_read(b""), ReceiveStep::Closed));
    assert_eq!(b.free_space(), RECEIVE_BUFFER_SIZE - 3);
}

#[test]
fn receive_buffer_fills_up_without_newline() {
    let mut b = ReceiveBuffer::new();
    assert!(!b.is_full());
    let data = vec![b'x'; RECEIVE_BUFFER_SIZE];
    assert!(matches!(b.on_read(&data), ReceiveStep::Pending));
    assert!(b.is_full());
    assert_eq!(b.free_space(), 0);
}

#[test]
fn receive_buffer_lone_newline_gives_empty_chunk() {
    let mut b = ReceiveBuffer::new();
    assert_eq!(complete(b.on_read(b"\n")), Vec::<u8>::new());
}

#[test]
fn retry_wait_is_the_rest_of_the_spacing() {
    assert_eq!(remaining_wait_millis(UPLOAD_RETRY_SPACING_MILLIS, 0), 15_000);
    assert_eq!(remaining_wait_millis(15_000, 4_000), 11_000);
    assert_eq!(remaining_wait_millis(15_000, 15_000), 0);
    assert_eq!(remaining_wait_millis(15_000, 90_000), 0);
}

#[test]
fn next_steps() {
    assert_eq!(next_step(AttemptEnd::SourceClosed, TaskOutcome::Succeeded), NextStep::ReturnOk);
    assert_eq!(next_step(AttemptEnd::SourceClosed, TaskOutcome::UploadFailed), NextStep::ReturnUploadError);
    assert_eq!(next_step(AttemptEnd::SourceClosed, TaskOutcome::JoinFailed), NextStep::ReturnJoinError);
    assert_eq!(next_step(AttemptEnd::HandoverFailed, TaskOutcome::Succeeded), NextStep::Retry);
    assert_eq!(next_step(AttemptEnd::HandoverFailed, TaskOutcome::UploadFailed), NextStep::Retry);
    assert_eq!(next_step(AttemptEnd::HandoverFailed, TaskOutcome::JoinFailed), NextStep::RetryAfterWait);
    assert_eq!(next_step(AttemptEnd::Recycled, TaskOutcome::Succeeded), NextStep::Retry);
    assert_eq!(next_step(AttemptEnd::Recycled, TaskOutcome::UploadFailed), NextStep::RetryAfterWait);
    assert_eq!(next_step(AttemptEnd::Recycled, TaskOutcome::JoinFailed), NextStep::ReturnJoinError);
    assert_eq!(next_step(AttemptEnd::TaskFinished, TaskOutcome::Succeeded), NextStep::Retry);
    assert_eq!(next_step(AttemptEnd::TaskFinished, TaskOutcome::UploadFailed), NextStep::RetryAfterWait);
    assert_eq!(next_step(AttemptEnd::TaskFinished, TaskOutcome::JoinFailed), NextStep::ReturnJoinError);
}

#[test]
fn unsent_message_goes_first_in_next_attempt() {
    let mut c = UploadControl::new();
    assert!(matches!(c.begin_attempt(false), AttemptStart::Start(None)));
    c.keep_unsent(b"line\n".to_vec());
    match c.begin_attempt(false) {
        AttemptStart::Start(Some(m)) => assert_eq!(m, b"line\n".to_vec()),
        _ => panic!("expected the kept message"),
    }
    assert!(matches!(c.begin_attempt(false), AttemptStart::Start(None)));
}

#[test]
fn exactly_one_attempt_after_shutdown() {
    let mut c = UploadControl::new();
    for _ in 0..3 {
        assert!(matches!(c.begin_attempt(false), AttemptStart::Start(_)));
    }
    assert!(matches!(c.begin_attempt(true), AttemptStart::Start(None)));
    c.keep_unsent(b"x".to_vec());
    assert!(matches!(c.begin_attempt(false), AttemptStart::Stop));
    assert!(matches!(c.begin_attempt(true), AttemptStart::Stop));
}
