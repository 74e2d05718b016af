//! The conversation between the dictation client and a transcription server:
//! one greeting, then one response for every request, in order.

use crate::protocol::{
    client_encodable, decode_client, decode_server, encode_client, encode_server, read_client_msg,
    read_server_msg, server_encodable, write_client_msg, write_server_msg, ByteReader, ClientFrame,
    ClientMsg, ProtocolError, ServerFrame, ServerMsg,
};
use crate::transcribe::{TranscribeError, Transcriber};
use vstd::prelude::*;

verus! {

/// What a server message means to a client, by where the conversation is.
pub enum Verdict {
    /// The greeting: the server is ready for requests.
    Greeted,
    /// The transcript of the request in flight.
    Transcript(Seq<char>),
    /// The server reported a failure.
    Failed(Seq<char>),
    /// The message has no place here.
    Violation,
}

/// What the first message of the server means: only `Ready` greets.
pub open spec fn greeting_verdict(msg: ServerFrame) -> Verdict {
    match msg {
        ServerFrame::Ready => Verdict::Greeted,
        ServerFrame::Error(text) => Verdict::Failed(text),
        ServerFrame::Text(_) => Verdict::Violation,
    }
}

/// What the message behind a request means: `Text` answers it, `Error`
/// fails it, and anything else, a second `Ready` too, breaks the protocol.
pub open spec fn response_verdict(msg: ServerFrame) -> Verdict {
    match msg {
        ServerFrame::Text(text) => Verdict::Transcript(text),
        ServerFrame::Error(text) => Verdict::Failed(text),
        ServerFrame::Ready => Verdict::Violation,
    }
}

/// The verdict that a greeting's outcome stands for.
pub open spec fn greeting_result_view(r: Result<(), TranscribeError>) -> Option<Verdict> {
    match r {
        Ok(()) => Some(Verdict::Greeted),
        Err(TranscribeError::Remote(text)) => Some(Verdict::Failed(text@)),
        Err(TranscribeError::UnexpectedMessage) => Some(Verdict::Violation),
        Err(_) => None,
    }
}

/// The verdict that a response's outcome stands for.
pub open spec fn response_result_view(r: Result<String, TranscribeError>) -> Option<Verdict> {
    match r {
        Ok(text) => Some(Verdict::Transcript(text@)),
        Err(TranscribeError::Remote(text)) => Some(Verdict::Failed(text@)),
        Err(TranscribeError::UnexpectedMessage) => Some(Verdict::Violation),
        Err(_) => None,
    }
}

/// Judges the server's first message.
pub fn check_greeting(first: ServerMsg) -> (r: Result<(), TranscribeError>)
    ensures
        greeting_result_view(r) == Some(greeting_verdict(first@)),
{
    match first {
        ServerMsg::Ready => Ok(()),
        ServerMsg::Error(text) => Err(TranscribeError::Remote(text)),
        ServerMsg::Text(_) => Err(TranscribeError::UnexpectedMessage),
    }
}

/// Judges the message that follows a request.
pub fn check_response(msg: ServerMsg) -> (r: Result<String, TranscribeError>)
    ensures
        response_result_view(r) == Some(response_verdict(msg@)),
{
    match msg {
        ServerMsg::Text(text) => Ok(text),
        ServerMsg::Error(text) => Err(TranscribeError::Remote(text)),
        ServerMsg::Ready => Err(TranscribeError::UnexpectedMessage),
    }
}

/// The bytes of the request for one segment.
pub fn encode_request(audio: &[i16]) -> (r: Result<Vec<u8>, ProtocolError>)
    ensures
        client_encodable(ClientFrame::AudioSegment(audio@)) ==> r is Ok && r->Ok_0@
            == encode_client(ClientFrame::AudioSegment(audio@)),
        !client_encodable(ClientFrame::AudioSegment(audio@)) ==> r == Err::<
            Vec<u8>,
            ProtocolError,
        >(ProtocolError::PayloadTooLarge),
{
    let mut samples: Vec<i16> = Vec::with_capacity(audio.len());
    let mut i: usize = 0;
    while i < audio.len()
        invariant
            i <= audio.len(),
            samples@ == audio@.take(i as int),
        decreases audio.len() - i,
    {
        samples.push(audio[i]);
        i += 1;
        assert(samples@ =~= audio@.take(i as int));
    }
    assert(audio@.take(audio.len() as int) =~= audio@);
    let msg = ClientMsg::AudioSegment(samples);
    let mut out: Vec<u8> = Vec::new();
    match write_client_msg(&mut out, &msg) {
        Ok(()) => {
            assert(out@ =~= encode_client(msg@));
            Ok(out)
        },
        Err(e) => Err(e),
    }
}

/// What the bytes of one response mean to the request in flight: the
/// verdict on the message that they hold, or the reason why they hold none.
pub open spec fn response_meaning(bytes: Seq<u8>) -> Result<Verdict, ProtocolError> {
    match decode_server(bytes).result {
        Ok(msg) => Ok(response_verdict(msg)),
        Err(e) => Err(e),
    }
}

/// The meaning that an outcome stands for.
pub open spec fn outcome_meaning(r: Result<String, TranscribeError>) -> Option<
    Result<Verdict, ProtocolError>,
> {
    match r {
        Err(TranscribeError::Protocol(e)) => Some(Err(e)),
        _ => match response_result_view(r) {
            Some(verdict) => Some(Ok(verdict)),
            None => None,
        },
    }
}

/// Reads the response to the request in flight out of `bytes`.
pub fn decode_response(bytes: Vec<u8>) -> (r: Result<String, TranscribeError>)
    ensures
        outcome_meaning(r) == Some(response_meaning(bytes@)),
{
    let mut reader = ByteReader::new(bytes);
    match read_server_msg(&mut reader) {
        Ok(msg) => check_response(msg),
        Err(e) => Err(TranscribeError::Protocol(e)),
    }
}

/// Why a server stops reading requests.
#[derive(Debug, Clone, Copy, PartialEq, Eq, Structural)]
pub enum Shutdown {
    /// The client closed the stream: the normal end.
    ClientGone,
    /// The client's bytes were no request.
    ProtocolViolation,
}

/// Why the server stops after a failed read: the end of the stream is the
/// client's way to say goodbye, anything else is a violation.
pub open spec fn shutdown_reason(e: ProtocolError) -> Shutdown {
    if e == ProtocolError::UnexpectedEof {
        Shutdown::ClientGone
    } else {
        Shutdown::ProtocolViolation
    }
}

/// Tells a goodbye from a violation.
pub fn classify_read_failure(e: ProtocolError) -> (r: Shutdown)
    ensures
        r == shutdown_reason(e),
{
    match e {
        ProtocolError::UnexpectedEof => Shutdown::ClientGone,
        _ => Shutdown::ProtocolViolation,
    }
}

/// The one response that a request gets: the transcript, or the failure's
/// description.
pub open spec fn reply(outcome: Result<Seq<char>, Seq<char>>) -> ServerFrame {
    match outcome {
        Ok(text) => ServerFrame::Text(text),
        Err(reason) => ServerFrame::Error(reason),
    }
}

/// The contents of an outcome.
pub open spec fn outcome_words(outcome: Result<String, String>) -> Result<Seq<char>, Seq<char>> {
    match outcome {
        Ok(text) => Ok(text@),
        Err(reason) => Err(reason@),
    }
}

/// Builds the response to a request from the outcome of transcribing it.
pub fn reply_for(outcome: Result<String, String>) -> (r: ServerMsg)
    ensures
        r@ == reply(outcome_words(outcome)),
{
    match outcome {
        Ok(text) => ServerMsg::Text(text),
        Err(reason) => ServerMsg::Error(reason),
    }
}

/// The words in which a failure is reported to the client: the failure's own
/// description where it has one.
pub open spec fn failure_words(e: TranscribeError) -> Seq<char> {
    match e {
        TranscribeError::Engine(reason) => reason@,
        TranscribeError::Remote(reason) => reason@,
        TranscribeError::Io(reason) => reason@,
        TranscribeError::UnexpectedMessage => "unexpected message"@,
        TranscribeError::Protocol(_) => "protocol error"@,
    }
}

/// Describes a failure for the client.
pub fn failure_report(e: TranscribeError) -> (r: String)
    ensures
        r@ == failure_words(e),
{
    match e {
        TranscribeError::Engine(reason) => reason,
        TranscribeError::Remote(reason) => reason,
        TranscribeError::Io(reason) => reason,
        TranscribeError::UnexpectedMessage => crate::text::string_of(
            crate::text::chars_of("unexpected message").as_slice(),
        ),
        TranscribeError::Protocol(_) => crate::text::string_of(
            crate::text::chars_of("protocol error").as_slice(),
        ),
    }
}

/// How serving one request ended.
#[derive(Debug, Clone, Copy, PartialEq, Eq, Structural)]
pub enum Served {
    /// The request was transcribed and its one response written.
    Replied,
    /// The bytes held no request; nothing was written.
    Stopped(Shutdown),
    /// The response could not be written; nothing was written.
    Failed(ProtocolError),
}

/// The one response to a request whose transcription ended in `outcome`:
/// the transcript, or the failure in its own words.
pub open spec fn answer(outcome: Result<String, TranscribeError>) -> ServerFrame {
    match outcome {
        Ok(text) => ServerFrame::Text(text@),
        Err(e) => ServerFrame::Error(failure_words(e)),
    }
}

/// How answering ends and what the output holds then, where it held
/// `before`: the response behind it, or nothing more where the response is
/// too long to be written.
pub open spec fn answered(outcome: Result<String, TranscribeError>, before: Seq<u8>) -> (
    Served,
    Seq<u8>,
) {
    if server_encodable(answer(outcome)) {
        (Served::Replied, before + encode_server(answer(outcome)))
    } else {
        (Served::Failed(ProtocolError::PayloadTooLarge), before)
    }
}

/// Writes the one response to a request whose transcription ended in
/// `outcome`. Fails, writing nothing, only where the response is too long to
/// be written.
pub fn answer_request(outcome: Result<String, TranscribeError>, out: &mut Vec<u8>) -> (r: Served)
    ensures
        server_encodable(answer(outcome)) ==> r == Served::Replied && final(out)@ == old(out)@
            + encode_server(answer(outcome)),
        !server_encodable(answer(outcome)) ==> r == Served::Failed(ProtocolError::PayloadTooLarge)
            && final(out)@ == old(out)@,
{
    let said: Result<String, String> = match outcome {
        Ok(text) => Ok(text),
        Err(e) => Err(failure_report(e)),
    };
    let response = reply_for(said);
    match write_server_msg(out, &response) {
        Ok(()) => Served::Replied,
        Err(e) => Served::Failed(e),
    }
}

/// Serves the request in `request`: reads it, has it transcribed, and
/// appends the one response to `out`, `Text` with the transcript or `Error`
/// with the failure's description.
///
/// What the transcriber returns is its own. Whatever it is, bytes that hold
/// no request stop the server with nothing written, and a request is
/// answered as [`answer_request`] answers the transcriber's outcome: with
/// exactly one response, the `Text` or `Error` of that outcome, unless that
/// response is too long to be written.
pub fn serve_request<T: Transcriber>(
    request: Vec<u8>,
    transcriber: &mut T,
    out: &mut Vec<u8>,
) -> (r: Served)
    ensures
        match decode_client(request@).result {
            Err(e) => r == Served::Stopped(shutdown_reason(e)) && final(out)@ == old(out)@,
            Ok(_) => exists|outcome: Result<String, TranscribeError>|
                (r, final(out)@) == #[trigger] answered(outcome, old(out)@),
        },
{
    let mut reader = ByteReader::new(request);
    match read_client_msg(&mut reader) {
        Err(e) => Served::Stopped(classify_read_failure(e)),
        Ok(ClientMsg::AudioSegment(samples)) => {
            let outcome = transcriber.transcribe(samples.as_slice());
            let ghost came_back = outcome;
            let r = answer_request(outcome, out);
            assert((r, out@) == answered(came_back, old(out)@));
            r
        },
    }
}

/// What a server has written after its greeting and one answer for each of
/// `outcomes`, in order.
pub open spec fn served_stream(outcomes: Seq<Result<String, TranscribeError>>) -> Seq<u8>
    decreases outcomes.len(),
{
    if outcomes.len() == 0 {
        encode_server(ServerFrame::Ready)
    } else {
        served_stream(outcomes.drop_last()) + encode_server(answer(outcomes.last()))
    }
}

/// The messages that a client reads out of [`served_stream`].
pub open spec fn served_messages(outcomes: Seq<Result<String, TranscribeError>>) -> Seq<
    ServerFrame,
> {
    seq![ServerFrame::Ready] + Seq::new(outcomes.len(), |i: int| answer(outcomes[i]))
}

/// Messages written one behind the other: one more at the end.
proof fn lemma_stream_with_one_more(msgs: Seq<ServerFrame>, last: ServerFrame)
    ensures
        crate::protocol::encode_server_stream(msgs.push(last))
            == crate::protocol::encode_server_stream(msgs) + encode_server(last),
    decreases msgs.len(),
{
    let all = msgs.push(last);
    if msgs.len() == 0 {
        assert(all.drop_first() =~= Seq::<ServerFrame>::empty());
        assert(crate::protocol::encode_server_stream(all.drop_first()) =~= Seq::<u8>::empty());
        assert(crate::protocol::encode_server_stream(all) =~= encode_server(last));
        assert(crate::protocol::encode_server_stream(msgs) + encode_server(last)
            =~= encode_server(last));
    } else {
        assert(all.drop_first() =~= msgs.drop_first().push(last));
        lemma_stream_with_one_more(msgs.drop_first(), last);
        assert(crate::protocol::encode_server_stream(all) =~= crate::protocol::encode_server_stream(
            msgs,
        ) + encode_server(last));
    }
}

/// A server that greets and then answers each request once writes a stream
/// out of which the client reads `Ready`, then exactly one response for
/// each request, in order, each the answer to the outcome of that request,
/// and nothing more.
pub proof fn lemma_served_stream_is_read_in_order(
    outcomes: Seq<Result<String, TranscribeError>>,
    rest: Seq<u8>,
)
    requires
        forall|i: int| 0 <= i < outcomes.len() ==> server_encodable(answer(#[trigger] outcomes[i])),
    ensures
        served_stream(outcomes) == crate::protocol::encode_server_stream(served_messages(outcomes)),
        crate::protocol::decode_server_stream(
            served_stream(outcomes) + rest,
            served_messages(outcomes).len(),
        ).0 == served_messages(outcomes).map_values(
            |m: ServerFrame| Ok::<ServerFrame, ProtocolError>(m),
        ),
        crate::protocol::decode_server_stream(
            served_stream(outcomes) + rest,
            served_messages(outcomes).len(),
        ).1 == rest,
{
    lemma_served_stream_is_its_messages(outcomes);
    let msgs = served_messages(outcomes);
    assert forall|i: int| 0 <= i < msgs.len() implies server_encodable(#[trigger] msgs[i]) by {
        if i > 0 {
            assert(msgs[i] == answer(outcomes[i - 1]));
        } else {
            assert(crate::protocol::server_payload(msgs[0]).len() == 0);
        }
    }
    crate::protocol::lemma_server_stream_round_trip(msgs, rest);
}

/// What the server has written is its messages, one behind the other.
proof fn lemma_served_stream_is_its_messages(outcomes: Seq<Result<String, TranscribeError>>)
    ensures
        served_stream(outcomes) == crate::protocol::encode_server_stream(served_messages(outcomes)),
    decreases outcomes.len(),
{
    let msgs = served_messages(outcomes);
    if outcomes.len() == 0 {
        assert(msgs =~= seq![ServerFrame::Ready]);
        lemma_stream_with_one_more(Seq::<ServerFrame>::empty(), ServerFrame::Ready);
        assert(Seq::<ServerFrame>::empty().push(ServerFrame::Ready) =~= msgs);
        assert(crate::protocol::encode_server_stream(Seq::<ServerFrame>::empty())
            =~= Seq::<u8>::empty());
        assert(served_stream(outcomes) =~= crate::protocol::encode_server_stream(msgs));
    } else {
        let front = outcomes.drop_last();
        lemma_served_stream_is_its_messages(front);
        assert(served_messages(front).push(answer(outcomes.last())) =~= msgs);
        lemma_stream_with_one_more(served_messages(front), answer(outcomes.last()));
    }
}

/// A request that was written and the response that was written for it are
/// read back as the transcript that went in: over an intact pipe, what the
/// server's engine returned is what the client's caller gets.
pub proof fn lemma_transcript_crosses_the_wire(text: Seq<char>, rest: Seq<u8>)
    requires
        crate::protocol::server_encodable(ServerFrame::Text(text)),
    ensures
        response_meaning(crate::protocol::encode_server(reply(Ok(text))) + rest) == Ok::<
            Verdict,
            ProtocolError,
        >(Verdict::Transcript(text)),
{
    crate::protocol::lemma_server_round_trip(ServerFrame::Text(text), rest);
}

/// A failure that the server reports reaches the client as that failure.
pub proof fn lemma_failure_crosses_the_wire(reason: Seq<char>, rest: Seq<u8>)
    requires
        crate::protocol::server_encodable(ServerFrame::Error(reason)),
    ensures
        response_meaning(crate::protocol::encode_server(reply(Err(reason))) + rest) == Ok::<
            Verdict,
            ProtocolError,
        >(Verdict::Failed(reason)),
{
    crate::protocol::lemma_server_round_trip(ServerFrame::Error(reason), rest);
}

// ---------------------------------------------------------------------------
// Whose turn it is
// ---------------------------------------------------------------------------

/// Where a client stands in the conversation.
#[derive(Debug, Clone, Copy, PartialEq, Eq, Structural)]
pub enum Phase {
    /// Nothing has been heard from the server yet.
    AwaitingGreeting,
    /// The server is ready and no request is in flight.
    Idle,
    /// A request is in flight: its response is the next message.
    AwaitingResponse,
    /// The protocol was broken; the session is over.
    Broken,
}

/// What the client does or sees.
pub enum Turn {
    /// The client sends a request.
    Request,
    /// The client receives a message.
    Message(ServerFrame),
}

/// The phase after `turn`. A request may be sent only when none is in
/// flight; the greeting comes first and once; each request is followed by
/// one `Text` or `Error`. Anything else breaks the session for good.
pub open spec fn phase_after(phase: Phase, turn: Turn) -> Phase {
    match turn {
        Turn::Request => if phase == Phase::Idle {
            Phase::AwaitingResponse
        } else {
            Phase::Broken
        },
        Turn::Message(msg) => if phase == Phase::AwaitingGreeting {
            if msg is Ready {
                Phase::Idle
            } else {
                Phase::Broken
            }
        } else if phase == Phase::AwaitingResponse {
            if msg is Ready {
                Phase::Broken
            } else {
                Phase::Idle
            }
        } else {
            Phase::Broken
        },
    }
}

/// A client's place in the conversation with one server.
pub struct ClientSession {
    phase: Phase,
}

impl View for ClientSession {
    type V = Phase;

    closed spec fn view(&self) -> Phase {
        self.phase
    }
}

impl ClientSession {
    /// A session that waits for the server's greeting.
    pub fn new() -> (r: ClientSession)
        ensures
            r@ == Phase::AwaitingGreeting,
    {
        ClientSession { phase: Phase::AwaitingGreeting }
    }

    /// Where the session stands.
    pub fn phase(&self) -> (r: Phase)
        ensures
            r == self@,
    {
        self.phase
    }

    /// Takes the server's first message. Succeeds on `Ready` at the start
    /// of the session and nowhere else; called at any other time it breaks
    /// the session.
    pub fn greet(&mut self, first: ServerMsg) -> (r: Result<(), TranscribeError>)
        ensures
            old(self)@ == Phase::AwaitingGreeting ==> final(self)@ == phase_after(
                old(self)@,
                Turn::Message(first@),
            ),
            old(self)@ != Phase::AwaitingGreeting ==> final(self)@ == Phase::Broken,
            r is Ok <==> final(self)@ == Phase::Idle,
            old(self)@ == Phase::AwaitingGreeting ==> greeting_result_view(r) == Some(
                greeting_verdict(first@),
            ),
            old(self)@ != Phase::AwaitingGreeting ==> r is Err && r->Err_0
                is UnexpectedMessage,
    {
        match self.phase {
            Phase::AwaitingGreeting => {
                let ready: bool = match &first {
                    ServerMsg::Ready => true,
                    _ => false,
                };
                self.phase = if ready {
                    Phase::Idle
                } else {
                    Phase::Broken
                };
                check_greeting(first)
            },
            _ => {
                self.phase = Phase::Broken;
                Err(TranscribeError::UnexpectedMessage)
            },
        }
    }

    /// Starts a request for one segment and returns its bytes. Fails,
    /// leaving the session as it is, where the segment is too long to be
    /// sent; fails for good where a request is in flight or the server has
    /// not greeted.
    pub fn request(&mut self, audio: &[i16]) -> (r: Result<Vec<u8>, TranscribeError>)
        ensures
            old(self)@ == Phase::Idle && client_encodable(ClientFrame::AudioSegment(audio@)) ==> {
                &&& r is Ok
                &&& r->Ok_0@ == encode_client(ClientFrame::AudioSegment(audio@))
                &&& final(self)@ == Phase::AwaitingResponse
            },
            old(self)@ == Phase::Idle && !client_encodable(ClientFrame::AudioSegment(audio@)) ==> {
                &&& r is Err
                &&& r->Err_0 == TranscribeError::Protocol(ProtocolError::PayloadTooLarge)
                &&& final(self)@ == Phase::Idle
            },
            old(self)@ != Phase::Idle ==> {
                &&& r is Err
                &&& r->Err_0 is UnexpectedMessage
                &&& final(self)@ == Phase::Broken
            },
            r is Ok ==> final(self)@ == phase_after(old(self)@, Turn::Request),
    {
        match self.phase {
            Phase::Idle => match encode_request(audio) {
                Ok(bytes) => {
                    self.phase = Phase::AwaitingResponse;
                    Ok(bytes)
                },
                Err(e) => Err(TranscribeError::Protocol(e)),
            },
            _ => {
                self.phase = Phase::Broken;
                Err(TranscribeError::UnexpectedMessage)
            },
        }
    }

    /// Takes the message that follows the request in flight and returns
    /// its transcript. A failure that the server reports ends the request,
    /// not the session; called while no request is in flight it breaks the
    /// session.
    pub fn respond(&mut self, msg: ServerMsg) -> (r: Result<String, TranscribeError>)
        ensures
            old(self)@ == Phase::AwaitingResponse ==> final(self)@ == phase_after(
                old(self)@,
                Turn::Message(msg@),
            ),
            old(self)@ != Phase::AwaitingResponse ==> final(self)@ == Phase::Broken,
            old(self)@ == Phase::AwaitingResponse ==> response_result_view(r) == Some(
                response_verdict(msg@),
            ),
            old(self)@ != Phase::AwaitingResponse ==> r is Err && r->Err_0
                is UnexpectedMessage,
    {
        match self.phase {
            Phase::AwaitingResponse => {
                let ready: bool = match &msg {
                    ServerMsg::Ready => true,
                    _ => false,
                };
                self.phase = if ready {
                    Phase::Broken
                } else {
                    Phase::Idle
                };
                check_response(msg)
            },
            _ => {
                self.phase = Phase::Broken;
                Err(TranscribeError::UnexpectedMessage)
            },
        }
    }

    /// Ends the session after a failure of the pipe or of the framing.
    pub fn fail(&mut self)
        ensures
            final(self)@ == Phase::Broken,
    {
        self.phase = Phase::Broken;
    }
}

/// The phase after a run of turns.
pub open spec fn phase_after_all(phase: Phase, turns: Seq<Turn>) -> Phase
    decreases turns.len(),
{
    if turns.len() == 0 {
        phase
    } else {
        phase_after(phase_after_all(phase, turns.drop_last()), turns.last())
    }
}

/// Number of requests among `turns`.
pub open spec fn requests_in(turns: Seq<Turn>) -> nat
    decreases turns.len(),
{
    if turns.len() == 0 {
        0
    } else {
        requests_in(turns.drop_last()) + if turns.last() is Request {
            1nat
        } else {
            0nat
        }
    }
}

/// Number of `Text` and `Error` messages among `turns`.
pub open spec fn responses_in(turns: Seq<Turn>) -> nat
    decreases turns.len(),
{
    if turns.len() == 0 {
        0
    } else {
        responses_in(turns.drop_last()) + match turns.last() {
            Turn::Message(ServerFrame::Text(_)) => 1nat,
            Turn::Message(ServerFrame::Error(_)) => 1nat,
            _ => 0nat,
        }
    }
}

/// Number of `Ready` messages among `turns`.
pub open spec fn greetings_in(turns: Seq<Turn>) -> nat
    decreases turns.len(),
{
    if turns.len() == 0 {
        0
    } else {
        greetings_in(turns.drop_last()) + match turns.last() {
            Turn::Message(ServerFrame::Ready) => 1nat,
            _ => 0nat,
        }
    }
}

/// The turn is the server's greeting.
pub open spec fn is_greeting(turn: Turn) -> bool {
    turn matches Turn::Message(msg) && msg is Ready
}

/// A broken session stays broken.
pub proof fn lemma_broken_is_final(turns: Seq<Turn>)
    ensures
        phase_after_all(Phase::Broken, turns) == Phase::Broken,
    decreases turns.len(),
{
    if turns.len() > 0 {
        lemma_broken_is_final(turns.drop_last());
    }
}

/// In a session that is not broken, the greeting came exactly once, before
/// any request, and requests and responses took turns: every request has
/// had its one response, but for the one that may be in flight.
pub proof fn lemma_turns_are_taken(turns: Seq<Turn>)
    requires
        phase_after_all(Phase::AwaitingGreeting, turns) != Phase::Broken,
    ensures
        match phase_after_all(Phase::AwaitingGreeting, turns) {
            Phase::AwaitingGreeting => turns.len() == 0,
            Phase::Idle => greetings_in(turns) == 1 && is_greeting(turns[0]) && requests_in(turns)
                == responses_in(turns),
            Phase::AwaitingResponse => greetings_in(turns) == 1 && is_greeting(turns[0])
                && requests_in(turns) == responses_in(turns) + 1,
            Phase::Broken => false,
        },
    decreases turns.len(),
{
    if turns.len() > 0 {
        let front = turns.drop_last();
        let before = phase_after_all(Phase::AwaitingGreeting, front);
        assert(before != Phase::Broken);
        lemma_turns_are_taken(front);
        if front.len() > 0 {
            assert(front[0] == turns[0]);
        } else {
            assert(greetings_in(front) == 0);
            assert(requests_in(front) == 0);
            assert(responses_in(front) == 0);
            assert(turns.last() == turns[0]);
        }
        match turns.last() {
            Turn::Request => {},
            Turn::Message(msg) => {
                match msg {
                    ServerFrame::Ready => {},
                    ServerFrame::Text(_) => {},
                    ServerFrame::Error(_) => {},
                }
            },
        }
    }
}

} // verus!
