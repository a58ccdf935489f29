use webcam_viewer::secret::make_secret;
use webcam_viewer::session::{FrameError, Session, SessionAction, SessionState};
use webcam_viewer::SECRET_SIZE;

fn padded(text: &[u8]) -> Vec<u8> {
    let mut v = text.to_vec();
    v.resize(SECRET_SIZE, 0);
    v
}

#[test]
fn short_secret_is_padded_with_zeros() {
    let s = make_secret("TEST".to_string());
    assert_eq!(s.len(), 40);
    assert_eq!(s, padded(b"TEST"));
}

#[test]
fn empty_secret_is_all_zeros() {
    assert_eq!(make_secret(String::new()), vec![0u8; 40]);
}

#[test]
fn long_secret_is_cut_at_forty_bytes() {
    let text = "abcdefghij".repeat(5);
    let s = make_secret(text.clone());
    assert_eq!(s, text.as_bytes()[..40].to_vec());
}

#[test]
fn exactly_forty_bytes_kept_whole() {
    let text = "x".repeat(40);
    assert_eq!(make_secret(text.clone()), text.into_bytes());
}

#[test]
fn multibyte_text_is_cut_by_bytes() {
    // 25 two-byte characters make 50 bytes; the block keeps the first 40.
    let text = "é".repeat(25);
    let s = make_secret(text.clone());
    assert_eq!(s, text.as_bytes()[..40].to_vec());
    let odd = format!("a{}", "é".repeat(25));
    assert_eq!(make_secret(odd.clone()), odd.as_bytes()[..40].to_vec());
}

#[test]
fn texts_sharing_forty_bytes_give_same_block() {
    let a = format!("{}{}", "k".repeat(40), "tail one");
    let b = format!("{}{}", "k".repeat(40), "other");
    assert_eq!(make_secret(a), make_secret(b));
}

#[test]
fn trailing_zero_bytes_do_not_matter() {
    assert_eq!(make_secret("TEST\0\0".to_string()), make_secret("TEST".to_string()));
}

#[test]
fn matching_secret_is_accepted_and_served() {
    let secret = make_secret("hunter2".to_string());
    let mut session = Session::new(secret.clone());
    assert_eq!(session.state, SessionState::AwaitingSecret);
    assert_eq!(session.secret_read(&secret), SessionAction::Accept);
    assert_eq!(session.state, SessionState::Streaming);
    for _ in 0..5 {
        assert_eq!(session.frame_done(Ok(())), SessionAction::SendFrame);
    }
    assert_eq!(session.frame_done(Err(FrameError::Tcp)), SessionAction::Shutdown);
    assert_eq!(session.state, SessionState::Closed);
    assert_eq!(session.frame_done(Ok(())), SessionAction::Ignore);
}

#[test]
fn wrong_secret_is_declined_and_nothing_follows() {
    let mut session = Session::new(make_secret("right".to_string()));
    let wrong = make_secret("wrong".to_string());
    assert_eq!(session.secret_read(&wrong), SessionAction::Decline);
    assert_eq!(session.state, SessionState::Closed);
    let right = make_secret("right".to_string());
    assert_eq!(session.secret_read(&right), SessionAction::Ignore);
    assert_eq!(session.frame_done(Ok(())), SessionAction::Ignore);
    assert_eq!(session.state, SessionState::Closed);
}

#[test]
fn secret_of_other_length_is_declined() {
    let secret = make_secret("abc".to_string());
    let mut session = Session::new(secret.clone());
    assert_eq!(session.secret_read(&secret[..39]), SessionAction::Decline);
}

#[test]
fn unreadable_secret_abandons() {
    let mut session = Session::new(make_secret("s".to_string()));
    assert_eq!(session.secret_unreadable(), SessionAction::Abandon);
    assert_eq!(session.state, SessionState::Closed);
}

#[test]
fn camera_failure_stops_streaming() {
    let secret = make_secret("s".to_string());
    let mut session = Session::new(secret.clone());
    assert_eq!(session.secret_read(&secret), SessionAction::Accept);
    assert_eq!(session.frame_done(Err(FrameError::Vid)), SessionAction::VideoUnavailable);
    assert_eq!(session.state, SessionState::Closed);
}

#[test]
fn frames_before_secret_are_ignored() {
    let secret = make_secret("s".to_string());
    let mut session = Session::new(secret.clone());
    assert_eq!(session.frame_done(Ok(())), SessionAction::Ignore);
    assert_eq!(session.state, SessionState::AwaitingSecret);
    assert_eq!(session.secret_read(&secret), SessionAction::Accept);
    assert_eq!(session.secret_read(&secret), SessionAction::Ignore);
    assert_eq!(session.secret_unreadable(), SessionAction::Ignore);
    assert_eq!(session.state, SessionState::Streaming);
}
