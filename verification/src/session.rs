//! The streamer's side of one client connection: the client first sends the
//! secret block; only when it matches does the streamer send frames, until the
//! connection or the camera fails.

use vstd::prelude::*;
use vstd::utf8::encode_utf8;
use crate::secret::secret_block;

verus! {

/// Why sending one frame failed.
#[derive(Clone, Copy, Debug, PartialEq, Eq, Structural)]
pub enum FrameError {
    /// No frame could be taken from the camera.
    Vid,
    /// The frame could not be written to the client.
    Tcp,
}

/// Where a connection stands.
#[derive(Clone, Copy, Debug, PartialEq, Eq, Structural)]
pub enum SessionState {
    /// Connected; the client's secret block has not been read yet.
    AwaitingSecret,
    /// The client presented the secret; frames are being sent.
    Streaming,
    /// The connection is over.
    Closed,
}

/// What the streamer does next on a connection.
#[derive(Clone, Copy, Debug, PartialEq, Eq, Structural)]
pub enum SessionAction {
    /// The secret matched: report the acceptance and send the first frame.
    Accept,
    /// The last frame went out: send the next one.
    SendFrame,
    /// The secret did not match: report the refusal and shut the connection down.
    Decline,
    /// A frame could not be written: shut the connection down.
    Shutdown,
    /// The secret could not be read: give up on the connection with the read error,
    /// without shutting it down.
    Abandon,
    /// The camera failed: stop the streamer ("Video stream not available.").
    VideoUnavailable,
    /// The event does not belong to the connection's current state: nothing to do.
    Ignore,
}

/// What happened on a connection, as the decisions see it.
pub enum SessionEvent {
    /// The client's secret block was read; these are its bytes.
    SecretRead(Seq<u8>),
    /// Reading the client's secret block failed.
    SecretUnreadable,
    /// A frame was sent to the client.
    FrameSent,
    /// Sending a frame failed.
    FrameFailed(FrameError),
}

/// The state after `event` in `state`, and the action the streamer takes.
pub open spec fn session_step(state: SessionState, secret: Seq<u8>, event: SessionEvent) -> (
    SessionState,
    SessionAction,
) {
    match state {
        SessionState::AwaitingSecret => match event {
            SessionEvent::SecretRead(data) => if data == secret {
                (SessionState::Streaming, SessionAction::Accept)
            } else {
                (SessionState::Closed, SessionAction::Decline)
            },
            SessionEvent::SecretUnreadable => (SessionState::Closed, SessionAction::Abandon),
            _ => (SessionState::AwaitingSecret, SessionAction::Ignore),
        },
        SessionState::Streaming => match event {
            SessionEvent::FrameSent => (SessionState::Streaming, SessionAction::SendFrame),
            SessionEvent::FrameFailed(FrameError::Tcp) => (
                SessionState::Closed,
                SessionAction::Shutdown,
            ),
            SessionEvent::FrameFailed(FrameError::Vid) => (
                SessionState::Closed,
                SessionAction::VideoUnavailable,
            ),
            _ => (SessionState::Streaming, SessionAction::Ignore),
        },
        SessionState::Closed => (SessionState::Closed, SessionAction::Ignore),
    }
}

/// The actions taken, one per event, when `events` happen in turn from `state`.
pub open spec fn session_actions(state: SessionState, secret: Seq<u8>, events: Seq<SessionEvent>) -> Seq<
    SessionAction,
>
    decreases events.len(),
{
    if events.len() == 0 {
        Seq::empty()
    } else {
        let (next, action) = session_step(state, secret, events[0]);
        seq![action] + session_actions(next, secret, events.drop_first())
    }
}

/// Whether `events[j]` is the first secret block read among `events`.
pub open spec fn first_secret_at(events: Seq<SessionEvent>, j: int) -> bool {
    &&& 0 <= j < events.len()
    &&& events[j] is SecretRead
    &&& forall|i: int| 0 <= i < j ==> !(events[i] is SecretRead)
}

/// There is one action per event.
pub proof fn lemma_one_action_per_event(state: SessionState, secret: Seq<u8>, events: Seq<SessionEvent>)
    ensures
        session_actions(state, secret, events).len() == events.len(),
    decreases events.len(),
{
    if events.len() > 0 {
        let (next, action) = session_step(state, secret, events[0]);
        lemma_one_action_per_event(next, secret, events.drop_first());
    }
}

/// A closed connection stays closed: whatever happens next, the streamer does nothing.
pub proof fn lemma_closed_stays_silent(secret: Seq<u8>, events: Seq<SessionEvent>)
    ensures
        session_actions(SessionState::Closed, secret, events) == Seq::new(
            events.len(),
            |i: int| SessionAction::Ignore,
        ),
    decreases events.len(),
{
    if events.len() > 0 {
        lemma_closed_stays_silent(secret, events.drop_first());
        assert(session_actions(SessionState::Closed, secret, events) =~= Seq::new(
            events.len(),
            |i: int| SessionAction::Ignore,
        ));
    } else {
        assert(session_actions(SessionState::Closed, secret, events) =~= Seq::new(
            events.len(),
            |i: int| SessionAction::Ignore,
        ));
    }
}

/// On a new connection, the streamer accepts a client or sends it a frame only
/// after the first secret block the client presented was exactly the secret.
pub proof fn lemma_frames_only_after_secret(secret: Seq<u8>, events: Seq<SessionEvent>, k: int)
    requires
        0 <= k < events.len(),
        session_actions(SessionState::AwaitingSecret, secret, events)[k] is Accept
            || session_actions(SessionState::AwaitingSecret, secret, events)[k] is SendFrame,
    ensures
        exists|j: int|
            0 <= j <= k && first_secret_at(events, j) && events[j] == SessionEvent::SecretRead(
                secret,
            ),
    decreases events.len(),
{
    let acts = session_actions(SessionState::AwaitingSecret, secret, events);
    let (next, action) = session_step(SessionState::AwaitingSecret, secret, events[0]);
    let rest = events.drop_first();
    assert(acts == seq![action] + session_actions(next, secret, rest));
    lemma_one_action_per_event(next, secret, rest);
    match events[0] {
        SessionEvent::SecretRead(data) => {
            if data == secret {
                assert(first_secret_at(events, 0));
            } else {
                lemma_closed_stays_silent(secret, rest);
                assert(acts[k] == SessionAction::Ignore || acts[k] == SessionAction::Decline);
            }
        },
        SessionEvent::SecretUnreadable => {
            lemma_closed_stays_silent(secret, rest);
            assert(acts[k] == SessionAction::Ignore || acts[k] == SessionAction::Abandon);
        },
        _ => {
            assert(k > 0);
            assert(acts[k] == session_actions(SessionState::AwaitingSecret, secret, rest)[k - 1]);
            lemma_frames_only_after_secret(secret, rest, k - 1);
            let j = choose|j: int|
                0 <= j <= k - 1 && first_secret_at(rest, j) && rest[j]
                    == SessionEvent::SecretRead(secret);
            assert(events[j + 1] == rest[j]);
            assert forall|i: int| 0 <= i < j + 1 implies !(events[i] is SecretRead) by {
                if i > 0 {
                    assert(events[i] == rest[i - 1]);
                }
            }
            assert(first_secret_at(events, j + 1));
        },
    }
}

/// A client whose secret block differs from the streamer's is declined, and
/// nothing at all is done on the connection after that.
pub proof fn lemma_wrong_secret_refused(
    secret: Seq<u8>,
    data: Seq<u8>,
    later: Seq<SessionEvent>,
)
    requires
        data != secret,
    ensures
        session_actions(
            SessionState::AwaitingSecret,
            secret,
            seq![SessionEvent::SecretRead(data)] + later,
        ) == seq![SessionAction::Decline] + Seq::new(later.len(), |i: int| SessionAction::Ignore),
{
    let events = seq![SessionEvent::SecretRead(data)] + later;
    assert(events.drop_first() =~= later);
    lemma_closed_stays_silent(secret, later);
}

/// A client that presents the secret is accepted and then served one frame
/// after another for as long as frames go out.
pub proof fn lemma_accepted_client_streams(secret: Seq<u8>, frames: nat)
    ensures
        session_actions(
            SessionState::AwaitingSecret,
            secret,
            seq![SessionEvent::SecretRead(secret)] + Seq::new(frames, |i: int| SessionEvent::FrameSent),
        ) == seq![SessionAction::Accept] + Seq::new(frames, |i: int| SessionAction::SendFrame),
{
    let sent = Seq::new(frames, |i: int| SessionEvent::FrameSent);
    let events = seq![SessionEvent::SecretRead(secret)] + sent;
    assert(events.drop_first() =~= sent);
    lemma_streaming_keeps_sending(secret, frames);
}

/// While frames go out, a streaming connection keeps sending.
proof fn lemma_streaming_keeps_sending(secret: Seq<u8>, frames: nat)
    ensures
        session_actions(
            SessionState::Streaming,
            secret,
            Seq::new(frames, |i: int| SessionEvent::FrameSent),
        ) == Seq::new(frames, |i: int| SessionAction::SendFrame),
    decreases frames,
{
    let sent = Seq::new(frames, |i: int| SessionEvent::FrameSent);
    if frames > 0 {
        lemma_streaming_keeps_sending(secret, (frames - 1) as nat);
        assert(sent.drop_first() =~= Seq::new((frames - 1) as nat, |i: int| SessionEvent::FrameSent));
    }
    assert(session_actions(SessionState::Streaming, secret, sent) =~= Seq::new(
        frames,
        |i: int| SessionAction::SendFrame,
    ));
}

/// A client is accepted exactly when the secret block of the text it was given
/// equals the streamer's; in particular, a client given the streamer's own
/// secret text is accepted.
pub proof fn lemma_typed_secret_accepted(streamer_text: Seq<char>, client_text: Seq<char>)
    ensures
        session_step(
            SessionState::AwaitingSecret,
            secret_block(encode_utf8(streamer_text)),
            SessionEvent::SecretRead(secret_block(encode_utf8(client_text))),
        ).1 == SessionAction::Accept <==> secret_block(encode_utf8(client_text)) == secret_block(
            encode_utf8(streamer_text),
        ),
        client_text == streamer_text ==> session_step(
            SessionState::AwaitingSecret,
            secret_block(encode_utf8(streamer_text)),
            SessionEvent::SecretRead(secret_block(encode_utf8(client_text))),
        ) == (SessionState::Streaming, SessionAction::Accept),
{
}

/// Once frames flow, what the streamer does next depends on the event alone,
/// not on the secret: the secret only decides whether frames flow at all.
pub proof fn lemma_streaming_ignores_secret(s1: Seq<u8>, s2: Seq<u8>, event: SessionEvent)
    ensures
        session_step(SessionState::Streaming, s1, event) == session_step(
            SessionState::Streaming,
            s2,
            event,
        ),
{
}

/// While frames flow: a frame that went out is followed by the next one, a
/// frame that could not be written shuts the connection down, and a camera
/// failure stops the streamer; each of the last two closes the connection.
pub proof fn lemma_streaming_outcomes(secret: Seq<u8>)
    ensures
        session_step(SessionState::Streaming, secret, SessionEvent::FrameSent) == (
            SessionState::Streaming,
            SessionAction::SendFrame,
        ),
        session_step(
            SessionState::Streaming,
            secret,
            SessionEvent::FrameFailed(FrameError::Tcp),
        ) == (SessionState::Closed, SessionAction::Shutdown),
        session_step(
            SessionState::Streaming,
            secret,
            SessionEvent::FrameFailed(FrameError::Vid),
        ) == (SessionState::Closed, SessionAction::VideoUnavailable),
{
}

/// The streamer stops only because of the camera: `VideoUnavailable` comes
/// from a camera failure while frames flow, and from nothing else. Likewise a
/// connection is shut down after a write failure only from a failed frame
/// write, accepted only on the exact secret, and abandoned only when the secret
/// could not be read.
pub proof fn lemma_actions_have_one_cause(state: SessionState, secret: Seq<u8>, event: SessionEvent)
    ensures
        session_step(state, secret, event).1 == SessionAction::VideoUnavailable ==> state
            == SessionState::Streaming && event == SessionEvent::FrameFailed(FrameError::Vid),
        session_step(state, secret, event).1 == SessionAction::Shutdown ==> state
            == SessionState::Streaming && event == SessionEvent::FrameFailed(FrameError::Tcp),
        session_step(state, secret, event).1 == SessionAction::Accept ==> state
            == SessionState::AwaitingSecret && event == SessionEvent::SecretRead(secret),
        session_step(state, secret, event).1 == SessionAction::Decline ==> state
            == SessionState::AwaitingSecret && (event matches SessionEvent::SecretRead(d) && d
            != secret),
        session_step(state, secret, event).1 == SessionAction::Abandon ==> state
            == SessionState::AwaitingSecret && event == SessionEvent::SecretUnreadable,
        session_step(state, secret, event).1 == SessionAction::SendFrame ==> state
            == SessionState::Streaming && event == SessionEvent::FrameSent,
{
}

/// One client connection on the streamer.
pub struct Session {
    /// Where the connection stands.
    pub state: SessionState,
    /// The secret block a client must present.
    pub secret: Vec<u8>,
}

/// Whether two byte strings are equal.
fn same_bytes(a: &[u8], b: &[u8]) -> (same: bool)
    ensures
        same == (a@ == b@),
{
    if a.len() != b.len() {
        return false;
    }
    let mut i: usize = 0;
    while i < a.len()
        invariant
            a@.len() == b@.len(),
            i <= a@.len(),
            forall|j: int| 0 <= j < i ==> a@[j] == b@[j],
        decreases a@.len() - i,
    {
        if a[i] != b[i] {
            return false;
        }
        i = i + 1;
    }
    assert(a@ =~= b@);
    true
}

impl Session {
    /// A new connection, waiting for the client's secret block.
    pub fn new(secret: Vec<u8>) -> (session: Session)
        ensures
            session.state == SessionState::AwaitingSecret,
            session.secret@ == secret@,
    {
        Session { state: SessionState::AwaitingSecret, secret }
    }

    /// The client's secret block `data` was read.
    pub fn secret_read(&mut self, data: &[u8]) -> (action: SessionAction)
        ensures
            (final(self).state, action) == session_step(
                old(self).state,
                old(self).secret@,
                SessionEvent::SecretRead(data@),
            ),
            final(self).secret@ == old(self).secret@,
    {
        match self.state {
            SessionState::AwaitingSecret => {
                if same_bytes(data, self.secret.as_slice()) {
                    self.state = SessionState::Streaming;
                    SessionAction::Accept
                } else {
                    self.state = SessionState::Closed;
                    SessionAction::Decline
                }
            },
            _ => SessionAction::Ignore,
        }
    }

    /// Reading the client's secret block failed.
    pub fn secret_unreadable(&mut self) -> (action: SessionAction)
        ensures
            (final(self).state, action) == session_step(
                old(self).state,
                old(self).secret@,
                SessionEvent::SecretUnreadable,
            ),
            final(self).secret@ == old(self).secret@,
    {
        match self.state {
            SessionState::AwaitingSecret => {
                self.state = SessionState::Closed;
                SessionAction::Abandon
            },
            _ => SessionAction::Ignore,
        }
    }

    /// An attempt to send a frame ended with `outcome`.
    pub fn frame_done(&mut self, outcome: Result<(), FrameError>) -> (action: SessionAction)
        ensures
            (final(self).state, action) == session_step(
                old(self).state,
                old(self).secret@,
                match outcome {
                    Ok(()) => SessionEvent::FrameSent,
                    Err(e) => SessionEvent::FrameFailed(e),
                },
            ),
            final(self).secret@ == old(self).secret@,
    {
        match self.state {
            SessionState::Streaming => match outcome {
                Ok(()) => SessionAction::SendFrame,
                Err(FrameError::Tcp) => {
                    self.state = SessionState::Closed;
                    SessionAction::Shutdown
                },
                Err(FrameError::Vid) => {
                    self.state = SessionState::Closed;
                    SessionAction::VideoUnavailable
                },
            },
            _ => SessionAction::Ignore,
        }
    }
}

} // verus!
