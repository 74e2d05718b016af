//! Length-prefixed framing between the dictation client and a transcription
//! server running in another process.
//!
//! Every message is `tag: 1 byte`, `length: 4 bytes little-endian`, then
//! `length` bytes of payload. The functions here work on byte buffers; moving
//! the bytes through a pipe is left to the caller.

use vstd::prelude::*;
use vstd::utf8::*;

verus! {

/// Tag of the client's only message: a speech segment to transcribe.
pub const TAG_AUDIO_SEGMENT: u8 = 0x01;

/// Tag of the server's greeting.
pub const TAG_READY: u8 = 0x80;

/// Tag of a transcript.
pub const TAG_TEXT: u8 = 0x81;

/// Tag of a failure report.
pub const TAG_ERROR: u8 = 0x82;

/// Bytes of tag and length in front of every payload.
pub const HEADER_LEN: usize = 5;

/// Client to server.
pub enum ClientMsg {
    /// Mono 16 kHz samples; the payload is their little-endian bytes.
    AudioSegment(Vec<i16>),
}

/// Server to client.
#[derive(Debug)]
pub enum ServerMsg {
    /// Sent once, before the first request. Carries no payload.
    Ready,
    /// The transcript of the last segment, as UTF-8.
    Text(String),
    /// Why the last segment could not be transcribed, as UTF-8.
    Error(String),
}

/// Why a message could not be written or read.
#[derive(Debug, Clone, Copy, PartialEq, Eq, Structural)]
pub enum ProtocolError {
    /// The stream ended inside a message (or before one).
    UnexpectedEof,
    /// An audio payload with an odd number of bytes; holds the declared length.
    OddAudioLength(u32),
    /// A tag that this side of the protocol does not read.
    UnknownTag(u8),
    /// A text payload that is not UTF-8.
    InvalidUtf8,
    /// A payload longer than the length field can announce.
    PayloadTooLarge,
}

/// Mathematical content of a [`ClientMsg`].
pub enum ClientFrame {
    AudioSegment(Seq<i16>),
}

/// Mathematical content of a [`ServerMsg`].
pub enum ServerFrame {
    Ready,
    Text(Seq<char>),
    Error(Seq<char>),
}

impl View for ClientMsg {
    type V = ClientFrame;

    open spec fn view(&self) -> ClientFrame {
        match self {
            ClientMsg::AudioSegment(samples) => ClientFrame::AudioSegment(samples@),
        }
    }
}

impl View for ServerMsg {
    type V = ServerFrame;

    open spec fn view(&self) -> ServerFrame {
        match self {
            ServerMsg::Ready => ServerFrame::Ready,
            ServerMsg::Text(text) => ServerFrame::Text(text@),
            ServerMsg::Error(text) => ServerFrame::Error(text@),
        }
    }
}

// ---------------------------------------------------------------------------
// Integers on the wire
// ---------------------------------------------------------------------------

/// The four bytes of `n`, least significant first.
pub open spec fn le_u32(n: u32) -> Seq<u8> {
    seq![
        (n % 256) as u8,
        ((n / 256) % 256) as u8,
        ((n / 65536) % 256) as u8,
        (n / 16777216) as u8,
    ]
}

/// The number whose little-endian bytes are `b0 b1 b2 b3`.
pub open spec fn from_le_u32(b0: u8, b1: u8, b2: u8, b3: u8) -> u32 {
    (b0 + 256 * b1 + 65536 * b2 + 16777216 * b3) as u32
}

/// A sample as an unsigned 16-bit pattern (two's complement).
pub open spec fn sample_bits(s: i16) -> int {
    if s < 0 {
        s + 65536
    } else {
        s as int
    }
}

/// Low byte of a sample's little-endian form.
pub open spec fn sample_lo(s: i16) -> u8 {
    (sample_bits(s) % 256) as u8
}

/// High byte of a sample's little-endian form.
pub open spec fn sample_hi(s: i16) -> u8 {
    (sample_bits(s) / 256) as u8
}

/// The sample whose little-endian bytes are `lo hi`.
pub open spec fn from_le_i16(lo: u8, hi: u8) -> i16 {
    let bits = lo + 256 * hi;
    if bits >= 32768 {
        (bits - 65536) as i16
    } else {
        bits as i16
    }
}

/// Samples laid out as bytes: two per sample, low byte first.
pub open spec fn samples_to_bytes(samples: Seq<i16>) -> Seq<u8> {
    Seq::new(
        2 * samples.len(),
        |k: int|
            if k % 2 == 0 {
                sample_lo(samples[k / 2])
            } else {
                sample_hi(samples[k / 2])
            },
    )
}

/// Samples read back from bytes; a trailing odd byte is not looked at.
pub open spec fn bytes_to_samples(bytes: Seq<u8>) -> Seq<i16> {
    Seq::new((bytes.len() / 2) as nat, |i: int| from_le_i16(bytes[2 * i], bytes[2 * i + 1]))
}

// ---------------------------------------------------------------------------
// What is written
// ---------------------------------------------------------------------------

/// One message on the wire. Meaningful when the payload fits the length field.
pub open spec fn frame(tag: u8, payload: Seq<u8>) -> Seq<u8> {
    seq![tag] + le_u32(payload.len() as u32) + payload
}

/// Payload bytes of a client message.
pub open spec fn client_payload(msg: ClientFrame) -> Seq<u8> {
    match msg {
        ClientFrame::AudioSegment(samples) => samples_to_bytes(samples),
    }
}

/// Payload bytes of a server message.
pub open spec fn server_payload(msg: ServerFrame) -> Seq<u8> {
    match msg {
        ServerFrame::Ready => Seq::empty(),
        ServerFrame::Text(text) => encode_utf8(text),
        ServerFrame::Error(text) => encode_utf8(text),
    }
}

/// Tag of a server message.
pub open spec fn server_tag(msg: ServerFrame) -> u8 {
    match msg {
        ServerFrame::Ready => TAG_READY,
        ServerFrame::Text(_) => TAG_TEXT,
        ServerFrame::Error(_) => TAG_ERROR,
    }
}

/// True when the message's payload can be announced in four bytes.
pub open spec fn client_encodable(msg: ClientFrame) -> bool {
    client_payload(msg).len() <= u32::MAX
}

/// True when the message's payload can be announced in four bytes.
pub open spec fn server_encodable(msg: ServerFrame) -> bool {
    server_payload(msg).len() <= u32::MAX
}

/// The bytes of a client message.
pub open spec fn encode_client(msg: ClientFrame) -> Seq<u8> {
    frame(TAG_AUDIO_SEGMENT, client_payload(msg))
}

/// The bytes of a server message.
pub open spec fn encode_server(msg: ServerFrame) -> Seq<u8> {
    frame(server_tag(msg), server_payload(msg))
}

// ---------------------------------------------------------------------------
// What is read
// ---------------------------------------------------------------------------

/// Outcome of reading one message from the front of a byte stream.
pub struct Decoded<M> {
    /// The message, or why there is none.
    pub result: Result<M, ProtocolError>,
    /// What is left of the stream afterwards.
    pub rest: Seq<u8>,
}

/// The length that a header announces.
pub open spec fn announced_len(bytes: Seq<u8>) -> u32
    recommends
        bytes.len() >= HEADER_LEN,
{
    from_le_u32(bytes[1], bytes[2], bytes[3], bytes[4])
}

/// Reads one client message from the front of `bytes`.
///
/// The header is consumed before the tag is judged, so a bad tag or an odd
/// length leaves the stream just behind the header. A stream that ends early
/// is consumed whole.
pub open spec fn decode_client(bytes: Seq<u8>) -> Decoded<ClientFrame> {
    if bytes.len() < HEADER_LEN {
        Decoded { result: Err(ProtocolError::UnexpectedEof), rest: Seq::empty() }
    } else {
        let tag = bytes[0];
        let len = announced_len(bytes);
        let body = bytes.skip(HEADER_LEN as int);
        if tag != TAG_AUDIO_SEGMENT {
            Decoded { result: Err(ProtocolError::UnknownTag(tag)), rest: body }
        } else if len % 2 != 0 {
            Decoded { result: Err(ProtocolError::OddAudioLength(len)), rest: body }
        } else if body.len() < len {
            Decoded { result: Err(ProtocolError::UnexpectedEof), rest: Seq::empty() }
        } else {
            Decoded {
                result: Ok(ClientFrame::AudioSegment(bytes_to_samples(body.take(len as int)))),
                rest: body.skip(len as int),
            }
        }
    }
}

/// A text payload as a message, built by `make`.
pub open spec fn decode_text(
    payload: Seq<u8>,
    make: spec_fn(Seq<char>) -> ServerFrame,
) -> Result<ServerFrame, ProtocolError> {
    if valid_utf8(payload) {
        Ok(make(decode_utf8(payload)))
    } else {
        Err(ProtocolError::InvalidUtf8)
    }
}

/// Reads one server message from the front of `bytes`.
///
/// A payload sent along with `Ready` is skipped, not interpreted.
pub open spec fn decode_server(bytes: Seq<u8>) -> Decoded<ServerFrame> {
    if bytes.len() < HEADER_LEN {
        Decoded { result: Err(ProtocolError::UnexpectedEof), rest: Seq::empty() }
    } else {
        let tag = bytes[0];
        let len = announced_len(bytes);
        let body = bytes.skip(HEADER_LEN as int);
        if tag != TAG_READY && tag != TAG_TEXT && tag != TAG_ERROR {
            Decoded { result: Err(ProtocolError::UnknownTag(tag)), rest: body }
        } else if body.len() < len {
            Decoded { result: Err(ProtocolError::UnexpectedEof), rest: Seq::empty() }
        } else {
            let payload = body.take(len as int);
            let result = if tag == TAG_READY {
                Ok(ServerFrame::Ready)
            } else if tag == TAG_TEXT {
                decode_text(payload, |t: Seq<char>| ServerFrame::Text(t))
            } else {
                decode_text(payload, |t: Seq<char>| ServerFrame::Error(t))
            };
            Decoded { result, rest: body.skip(len as int) }
        }
    }
}

/// The mathematical content of a read's outcome.
pub open spec fn client_result_view(r: Result<ClientMsg, ProtocolError>) -> Result<
    ClientFrame,
    ProtocolError,
> {
    match r {
        Ok(msg) => Ok(msg@),
        Err(e) => Err(e),
    }
}

/// The mathematical content of a read's outcome.
pub open spec fn server_result_view(r: Result<ServerMsg, ProtocolError>) -> Result<
    ServerFrame,
    ProtocolError,
> {
    match r {
        Ok(msg) => Ok(msg@),
        Err(e) => Err(e),
    }
}

// ---------------------------------------------------------------------------
// Reader
// ---------------------------------------------------------------------------

/// A byte buffer with a read position: the in-memory end of a byte stream.
pub struct ByteReader {
    data: Vec<u8>,
    pos: usize,
}

impl View for ByteReader {
    type V = Seq<u8>;

    /// The bytes not yet read.
    closed spec fn view(&self) -> Seq<u8> {
        self.data@.skip(self.pos as int)
    }
}

impl ByteReader {
    /// The position never passes the end of the buffer.
    #[verifier::type_invariant]
    closed spec fn inv(&self) -> bool {
        self.pos <= self.data.len()
    }

    /// A reader at the start of `data`.
    pub fn new(data: Vec<u8>) -> (r: ByteReader)
        ensures
            r@ == data@,
    {
        let r = ByteReader { data, pos: 0 };
        assert(r.data@.skip(0) =~= r.data@);
        r
    }

    /// Number of bytes not yet read.
    pub fn remaining(&self) -> (n: usize)
        ensures
            n == self@.len(),
    {
        proof {
            use_type_invariant(self);
        }
        self.data.len() - self.pos
    }

    /// Reads exactly `n` bytes. Where fewer are left, the stream is consumed
    /// to its end and the read fails.
    pub fn read_exact(&mut self, n: usize) -> (r: Result<Vec<u8>, ProtocolError>)
        ensures
            n <= old(self)@.len() ==> r is Ok && r->Ok_0@ == old(self)@.take(n as int)
                && final(self)@ == old(self)@.skip(n as int),
            n > old(self)@.len() ==> r == Err::<Vec<u8>, ProtocolError>(
                ProtocolError::UnexpectedEof,
            ) && final(self)@ == Seq::<u8>::empty(),
    {
        proof {
            use_type_invariant(&*self);
        }
        let left: usize = self.data.len() - self.pos;
        if n > left {
            self.pos = self.data.len();
            assert(self.data@.skip(self.pos as int) =~= Seq::<u8>::empty());
            return Err(ProtocolError::UnexpectedEof);
        }
        let start: usize = self.pos;
        let mut out: Vec<u8> = Vec::with_capacity(n);
        let mut i: usize = 0;
        while i < n
            invariant
                i <= n,
                start + n <= self.data.len(),
                out@ == self.data@.subrange(start as int, start + i),
            decreases n - i,
        {
            out.push(self.data[start + i]);
            i += 1;
            assert(out@ =~= self.data@.subrange(start as int, start + i));
        }
        self.pos = start + n;
        assert(out@ =~= self.data@.skip(start as int).take(n as int));
        assert(self.data@.skip(self.pos as int) =~= self.data@.skip(start as int).skip(n as int));
        Ok(out)
    }
}

// ---------------------------------------------------------------------------
// Arithmetic of the byte forms
// ---------------------------------------------------------------------------

/// Splitting a length into bytes and joining them gives the length back.
pub proof fn lemma_le_u32_round_trip(n: u32)
    ensures
        le_u32(n).len() == 4,
        from_le_u32(le_u32(n)[0], le_u32(n)[1], le_u32(n)[2], le_u32(n)[3]) == n,
{
    let b = le_u32(n);
    assert(b[0] == n % 256);
    assert(b[1] == (n / 256) % 256);
    assert(b[2] == (n / 65536) % 256);
    assert(b[3] == n / 16777216);
}

/// Splitting a sample into bytes and joining them gives the sample back.
pub proof fn lemma_le_i16_round_trip(s: i16)
    ensures
        from_le_i16(sample_lo(s), sample_hi(s)) == s,
{
    let bits = sample_bits(s);
    assert(0 <= bits < 65536);
    assert(sample_lo(s) == bits % 256);
    assert(sample_hi(s) == bits / 256);
}

/// Samples written as bytes and read back are the same samples.
pub proof fn lemma_samples_round_trip(samples: Seq<i16>)
    ensures
        samples_to_bytes(samples).len() == 2 * samples.len(),
        bytes_to_samples(samples_to_bytes(samples)) == samples,
{
    let bytes = samples_to_bytes(samples);
    let back = bytes_to_samples(bytes);
    assert(back.len() == samples.len());
    assert forall|i: int| 0 <= i < samples.len() implies back[i] == samples[i] by {
        lemma_le_i16_round_trip(samples[i]);
        assert((2 * i) % 2 == 0 && (2 * i) / 2 == i);
        assert((2 * i + 1) % 2 == 1 && (2 * i + 1) / 2 == i);
        assert(bytes[2 * i] == sample_lo(samples[i]));
        assert(bytes[2 * i + 1] == sample_hi(samples[i]));
    }
    assert(back =~= samples);
}

// ---------------------------------------------------------------------------
// Writing
// ---------------------------------------------------------------------------

/// Appends tag and length.
fn write_header(w: &mut Vec<u8>, tag: u8, len: u32)
    ensures
        final(w)@ == old(w)@ + seq![tag] + le_u32(len),
{
    w.push(tag);
    w.push((len % 256) as u8);
    w.push(((len / 256) % 256) as u8);
    w.push(((len / 65536) % 256) as u8);
    w.push((len / 16777216) as u8);
    assert(w@ =~= old(w)@ + seq![tag] + le_u32(len));
}

/// Appends a text message.
fn write_text(w: &mut Vec<u8>, tag: u8, text: &String) -> (r: Result<(), ProtocolError>)
    ensures
        encode_utf8(text@).len() <= u32::MAX ==> r is Ok && final(w)@ == old(w)@ + frame(
            tag,
            encode_utf8(text@),
        ),
        encode_utf8(text@).len() > u32::MAX ==> r == Err::<(), ProtocolError>(
            ProtocolError::PayloadTooLarge,
        ) && final(w)@ == old(w)@,
{
    let payload = text.as_str().as_bytes();
    if payload.len() > u32::MAX as usize {
        return Err(ProtocolError::PayloadTooLarge);
    }
    write_header(w, tag, payload.len() as u32);
    let ghost before = w@;
    let mut i: usize = 0;
    while i < payload.len()
        invariant
            i <= payload.len(),
            w@ == before + payload@.take(i as int),
        decreases payload.len() - i,
    {
        w.push(payload[i]);
        i += 1;
        assert(w@ =~= before + payload@.take(i as int));
    }
    assert(payload@.take(payload.len() as int) =~= payload@);
    assert(w@ =~= old(w)@ + frame(tag, encode_utf8(text@)));
    Ok(())
}

/// Appends a client message to `w`.
///
/// Fails, writing nothing, only where the samples take more bytes than the
/// length field can announce.
pub fn write_client_msg(w: &mut Vec<u8>, msg: &ClientMsg) -> (r: Result<(), ProtocolError>)
    ensures
        client_encodable(msg@) ==> r is Ok && final(w)@ == old(w)@ + encode_client(msg@),
        !client_encodable(msg@) ==> r == Err::<(), ProtocolError>(ProtocolError::PayloadTooLarge)
            && final(w)@ == old(w)@,
{
    match msg {
        ClientMsg::AudioSegment(samples) => {
            let count: usize = samples.len();
            if count > (u32::MAX / 2) as usize {
                return Err(ProtocolError::PayloadTooLarge);
            }
            write_header(w, TAG_AUDIO_SEGMENT, (count * 2) as u32);
            let ghost before = w@;
            let ghost bytes = samples_to_bytes(samples@);
            let mut i: usize = 0;
            while i < count
                invariant
                    i <= count,
                    count == samples.len(),
                    bytes == samples_to_bytes(samples@),
                    w@ == before + bytes.take(2 * i),
                decreases count - i,
            {
                let s: i16 = samples[i];
                let bits: u32 = if s < 0 {
                    (s as i32 + 65536) as u32
                } else {
                    s as u32
                };
                w.push((bits % 256) as u8);
                w.push((bits / 256) as u8);
                proof {
                    assert((2 * i) % 2 == 0 && (2 * i) / 2 == i);
                    assert((2 * i + 1) % 2 == 1 && (2 * i + 1) / 2 == i);
                    assert(bytes[2 * i] == sample_lo(s));
                    assert(bytes[2 * i + 1] == sample_hi(s));
                    assert(w@ =~= before + bytes.take(2 * (i + 1)));
                }
                i += 1;
            }
            assert(bytes.take(2 * count) =~= bytes);
            assert(w@ =~= old(w)@ + encode_client(msg@));
            Ok(())
        },
    }
}

/// Appends a server message to `w`.
///
/// Fails, writing nothing, only where the text takes more bytes than the
/// length field can announce.
pub fn write_server_msg(w: &mut Vec<u8>, msg: &ServerMsg) -> (r: Result<(), ProtocolError>)
    ensures
        server_encodable(msg@) ==> r is Ok && final(w)@ == old(w)@ + encode_server(msg@),
        !server_encodable(msg@) ==> r == Err::<(), ProtocolError>(ProtocolError::PayloadTooLarge)
            && final(w)@ == old(w)@,
{
    match msg {
        ServerMsg::Ready => {
            write_header(w, TAG_READY, 0);
            assert(w@ =~= old(w)@ + encode_server(msg@));
            Ok(())
        },
        ServerMsg::Text(text) => write_text(w, TAG_TEXT, text),
        ServerMsg::Error(text) => write_text(w, TAG_ERROR, text),
    }
}

// ---------------------------------------------------------------------------
// Reading
// ---------------------------------------------------------------------------

/// The length that a header announces.
fn header_len(header: &[u8]) -> (len: u32)
    requires
        header@.len() >= HEADER_LEN,
    ensures
        len == announced_len(header@),
{
    let b0: u32 = header[1] as u32;
    let b1: u32 = header[2] as u32;
    let b2: u32 = header[3] as u32;
    let b3: u32 = header[4] as u32;
    b0 + 256 * b1 + 65536 * b2 + 16777216 * b3
}

/// Joins payload bytes into samples.
fn samples_from_bytes(bytes: &Vec<u8>) -> (samples: Vec<i16>)
    requires
        bytes.len() % 2 == 0,
    ensures
        samples@ == bytes_to_samples(bytes@),
{
    let count: usize = bytes.len() / 2;
    let mut samples: Vec<i16> = Vec::with_capacity(count);
    let mut i: usize = 0;
    while i < count
        invariant
            i <= count,
            count == bytes.len() / 2,
            samples@ == bytes_to_samples(bytes@).take(i as int),
        decreases count - i,
    {
        let lo: u32 = bytes[2 * i] as u32;
        let hi: u32 = bytes[2 * i + 1] as u32;
        let bits: u32 = lo + 256 * hi;
        let s: i16 = if bits >= 32768 {
            (bits as i32 - 65536) as i16
        } else {
            bits as i16
        };
        samples.push(s);
        i += 1;
        assert(samples@ =~= bytes_to_samples(bytes@).take(i as int));
    }
    assert(bytes_to_samples(bytes@).take(count as int) =~= bytes_to_samples(bytes@));
    samples
}

/// [`String::from_utf8`]: the text that `bytes` encode, if they are UTF-8.
/// Trusted: std documents that the conversion succeeds exactly on valid
/// UTF-8 and keeps the bytes as the string's contents.
#[verifier::external_body]
fn string_from_utf8(bytes: Vec<u8>) -> (r: Option<String>)
    ensures
        r is Some <==> valid_utf8(bytes@),
        r matches Some(s) ==> s@ == decode_utf8(bytes@),
{
    String::from_utf8(bytes).ok()
}

/// Reads one client message from `r`.
pub fn read_client_msg(r: &mut ByteReader) -> (res: Result<ClientMsg, ProtocolError>)
    ensures
        client_result_view(res) == decode_client(old(r)@).result,
        final(r)@ == decode_client(old(r)@).rest,
{
    let header = match r.read_exact(HEADER_LEN) {
        Ok(h) => h,
        Err(e) => {
            return Err(e);
        },
    };
    let tag: u8 = header[0];
    let len: u32 = header_len(header.as_slice());
    if tag != TAG_AUDIO_SEGMENT {
        return Err(ProtocolError::UnknownTag(tag));
    }
    if len % 2 != 0 {
        return Err(ProtocolError::OddAudioLength(len));
    }
    let payload = match r.read_exact(len as usize) {
        Ok(p) => p,
        Err(e) => {
            return Err(e);
        },
    };
    let samples = samples_from_bytes(&payload);
    Ok(ClientMsg::AudioSegment(samples))
}

/// Reads one server message from `r`.
pub fn read_server_msg(r: &mut ByteReader) -> (res: Result<ServerMsg, ProtocolError>)
    ensures
        server_result_view(res) == decode_server(old(r)@).result,
        final(r)@ == decode_server(old(r)@).rest,
{
    let header = match r.read_exact(HEADER_LEN) {
        Ok(h) => h,
        Err(e) => {
            return Err(e);
        },
    };
    let tag: u8 = header[0];
    let len: u32 = header_len(header.as_slice());
    if tag != TAG_READY && tag != TAG_TEXT && tag != TAG_ERROR {
        return Err(ProtocolError::UnknownTag(tag));
    }
    let payload = match r.read_exact(len as usize) {
        Ok(p) => p,
        Err(e) => {
            return Err(e);
        },
    };
    if tag == TAG_READY {
        return Ok(ServerMsg::Ready);
    }
    match string_from_utf8(payload) {
        Some(text) => {
            if tag == TAG_TEXT {
                Ok(ServerMsg::Text(text))
            } else {
                Ok(ServerMsg::Error(text))
            }
        },
        None => Err(ProtocolError::InvalidUtf8),
    }
}

// ---------------------------------------------------------------------------
// Reading from a pipe
// ---------------------------------------------------------------------------

/// Number of payload bytes that follow a client message's header, for a
/// caller that pulls one message at a time out of a pipe. Fails as
/// [`read_client_msg`] would before it touches the payload.
pub fn client_payload_len(header: &[u8]) -> (r: Result<u32, ProtocolError>)
    ensures
        r == client_payload_len_spec(header@),
{
    if header.len() < HEADER_LEN {
        return Err(ProtocolError::UnexpectedEof);
    }
    let tag: u8 = header[0];
    let len: u32 = header_len(header);
    if tag != TAG_AUDIO_SEGMENT {
        Err(ProtocolError::UnknownTag(tag))
    } else if len % 2 != 0 {
        Err(ProtocolError::OddAudioLength(len))
    } else {
        Ok(len)
    }
}

/// Number of payload bytes that follow a server message's header.
pub fn server_payload_len(header: &[u8]) -> (r: Result<u32, ProtocolError>)
    ensures
        r == server_payload_len_spec(header@),
{
    if header.len() < HEADER_LEN {
        return Err(ProtocolError::UnexpectedEof);
    }
    let tag: u8 = header[0];
    let len: u32 = header_len(header);
    if tag != TAG_READY && tag != TAG_TEXT && tag != TAG_ERROR {
        Err(ProtocolError::UnknownTag(tag))
    } else {
        Ok(len)
    }
}

/// What a client message's header says of the payload behind it.
pub open spec fn client_payload_len_spec(header: Seq<u8>) -> Result<u32, ProtocolError> {
    if header.len() < HEADER_LEN {
        Err(ProtocolError::UnexpectedEof)
    } else if header[0] != TAG_AUDIO_SEGMENT {
        Err(ProtocolError::UnknownTag(header[0]))
    } else if announced_len(header) % 2 != 0 {
        Err(ProtocolError::OddAudioLength(announced_len(header)))
    } else {
        Ok(announced_len(header))
    }
}

/// What a server message's header says of the payload behind it.
pub open spec fn server_payload_len_spec(header: Seq<u8>) -> Result<u32, ProtocolError> {
    if header.len() < HEADER_LEN {
        Err(ProtocolError::UnexpectedEof)
    } else if header[0] != TAG_READY && header[0] != TAG_TEXT && header[0] != TAG_ERROR {
        Err(ProtocolError::UnknownTag(header[0]))
    } else {
        Ok(announced_len(header))
    }
}

/// A header followed by as many bytes as it asks for holds exactly one
/// message: reading it succeeds or fails on the payload alone and leaves
/// nothing behind. A header that asks for nothing fails as it does here.
pub proof fn lemma_client_header_delimits(header: Seq<u8>, payload: Seq<u8>)
    requires
        header.len() == HEADER_LEN,
    ensures
        client_payload_len_spec(header) matches Err(e) ==> decode_client(header + payload).result
            == Err::<ClientFrame, ProtocolError>(e),
        client_payload_len_spec(header) matches Ok(len) ==> (payload.len() == len ==> {
            &&& decode_client(header + payload).result == Ok::<ClientFrame, ProtocolError>(
                ClientFrame::AudioSegment(bytes_to_samples(payload)),
            )
            &&& decode_client(header + payload).rest == Seq::<u8>::empty()
        }),
{
    let bytes = header + payload;
    assert(bytes.skip(HEADER_LEN as int) =~= payload);
    assert(announced_len(bytes) == announced_len(header));
    assert(payload.take(payload.len() as int) =~= payload);
    assert(payload.skip(payload.len() as int) =~= Seq::<u8>::empty());
}

/// The same for the server's messages.
pub proof fn lemma_server_header_delimits(header: Seq<u8>, payload: Seq<u8>)
    requires
        header.len() == HEADER_LEN,
    ensures
        server_payload_len_spec(header) matches Err(e) ==> decode_server(header + payload).result
            == Err::<ServerFrame, ProtocolError>(e),
        server_payload_len_spec(header) matches Ok(len) ==> (payload.len() == len ==> {
            &&& decode_server(header + payload).result !== Err::<ServerFrame, ProtocolError>(
                ProtocolError::UnexpectedEof,
            )
            &&& decode_server(header + payload).rest == Seq::<u8>::empty()
        }),
{
    let bytes = header + payload;
    assert(bytes.skip(HEADER_LEN as int) =~= payload);
    assert(announced_len(bytes) == announced_len(header));
    assert(payload.take(payload.len() as int) =~= payload);
    assert(payload.skip(payload.len() as int) =~= Seq::<u8>::empty());
}

// ---------------------------------------------------------------------------
// Laws
// ---------------------------------------------------------------------------

/// A frame in front of any other bytes splits back into its tag, its length
/// and its payload.
proof fn lemma_frame_parts(tag: u8, payload: Seq<u8>, rest: Seq<u8>)
    requires
        payload.len() <= u32::MAX,
    ensures
        (frame(tag, payload) + rest).len() >= HEADER_LEN,
        (frame(tag, payload) + rest)[0] == tag,
        announced_len(frame(tag, payload) + rest) == payload.len(),
        (frame(tag, payload) + rest).skip(HEADER_LEN as int) == payload + rest,
        (payload + rest).take(payload.len() as int) == payload,
        (payload + rest).skip(payload.len() as int) == rest,
{
    let n = payload.len() as u32;
    let bytes = frame(tag, payload) + rest;
    lemma_le_u32_round_trip(n);
    let l = le_u32(n);
    assert(bytes[1] == l[0] && bytes[2] == l[1] && bytes[3] == l[2] && bytes[4] == l[3]);
    assert(bytes.skip(HEADER_LEN as int) =~= payload + rest);
    assert((payload + rest).take(payload.len() as int) =~= payload);
    assert((payload + rest).skip(payload.len() as int) =~= rest);
}

/// Round trip of a request: a client message that was written is read back
/// unchanged, and the bytes behind it are left as they were.
pub proof fn lemma_client_round_trip(msg: ClientFrame, rest: Seq<u8>)
    requires
        client_encodable(msg),
    ensures
        decode_client(encode_client(msg) + rest).result == Ok::<ClientFrame, ProtocolError>(msg),
        decode_client(encode_client(msg) + rest).rest == rest,
{
    let payload = client_payload(msg);
    lemma_frame_parts(TAG_AUDIO_SEGMENT, payload, rest);
    match msg {
        ClientFrame::AudioSegment(samples) => {
            lemma_samples_round_trip(samples);
        },
    }
}

/// Round trip of a response: a server message that was written is read back
/// unchanged, and the bytes behind it are left as they were.
pub proof fn lemma_server_round_trip(msg: ServerFrame, rest: Seq<u8>)
    requires
        server_encodable(msg),
    ensures
        decode_server(encode_server(msg) + rest).result == Ok::<ServerFrame, ProtocolError>(msg),
        decode_server(encode_server(msg) + rest).rest == rest,
{
    let payload = server_payload(msg);
    lemma_frame_parts(server_tag(msg), payload, rest);
    match msg {
        ServerFrame::Ready => {},
        ServerFrame::Text(text) => {
            encode_utf8_valid_utf8(text);
            encode_utf8_decode_utf8(text);
        },
        ServerFrame::Error(text) => {
            encode_utf8_valid_utf8(text);
            encode_utf8_decode_utf8(text);
        },
    }
}

/// A request stream that starts with any tag but the audio tag is never read
/// as a message.
pub proof fn lemma_unknown_client_tag(bytes: Seq<u8>)
    requires
        bytes.len() > 0,
        bytes[0] != TAG_AUDIO_SEGMENT,
    ensures
        decode_client(bytes).result is Err,
        bytes.len() >= HEADER_LEN ==> decode_client(bytes).result == Err::<
            ClientFrame,
            ProtocolError,
        >(ProtocolError::UnknownTag(bytes[0])),
{
}

/// A response stream that starts with any tag but the three known ones is
/// never read as a message.
pub proof fn lemma_unknown_server_tag(bytes: Seq<u8>)
    requires
        bytes.len() > 0,
        bytes[0] != TAG_READY,
        bytes[0] != TAG_TEXT,
        bytes[0] != TAG_ERROR,
    ensures
        decode_server(bytes).result is Err,
        bytes.len() >= HEADER_LEN ==> decode_server(bytes).result == Err::<
            ServerFrame,
            ProtocolError,
        >(ProtocolError::UnknownTag(bytes[0])),
{
}

/// Four bytes joined to a length and split again are the same four bytes.
pub proof fn lemma_from_le_u32_round_trip(b0: u8, b1: u8, b2: u8, b3: u8)
    ensures
        le_u32(from_le_u32(b0, b1, b2, b3)) == seq![b0, b1, b2, b3],
{
    let n = from_le_u32(b0, b1, b2, b3);
    assert(n == b0 + 256 * b1 + 65536 * b2 + 16777216 * b3);
    assert(n % 256 == b0);
    assert((n / 256) % 256 == b1);
    assert((n / 65536) % 256 == b2);
    assert(n / 16777216 == b3);
    assert(le_u32(n) =~= seq![b0, b1, b2, b3]);
}

/// Two bytes joined to a sample and split again are the same two bytes.
pub proof fn lemma_from_le_i16_round_trip(lo: u8, hi: u8)
    ensures
        sample_lo(from_le_i16(lo, hi)) == lo,
        sample_hi(from_le_i16(lo, hi)) == hi,
{
    let bits = lo + 256 * hi;
    assert(sample_bits(from_le_i16(lo, hi)) == bits);
    assert(bits % 256 == lo);
    assert(bits / 256 == hi);
}

/// Bytes, an even number of them, read as samples and written back are the
/// same bytes.
pub proof fn lemma_bytes_round_trip(bytes: Seq<u8>)
    requires
        bytes.len() % 2 == 0,
    ensures
        samples_to_bytes(bytes_to_samples(bytes)) == bytes,
{
    let samples = bytes_to_samples(bytes);
    let back = samples_to_bytes(samples);
    assert(back.len() == bytes.len());
    assert forall|k: int| 0 <= k < bytes.len() implies back[k] == bytes[k] by {
        let i = k / 2;
        lemma_from_le_i16_round_trip(bytes[2 * i], bytes[2 * i + 1]);
        assert(samples[i] == from_le_i16(bytes[2 * i], bytes[2 * i + 1]));
        if k % 2 == 0 {
            assert(k == 2 * i);
        } else {
            assert(k == 2 * i + 1);
        }
    }
    assert(back =~= bytes);
}

/// A stream of at least five bytes is its tag, the length that it
/// announces, and what follows.
proof fn lemma_header_parts(bytes: Seq<u8>)
    requires
        bytes.len() >= HEADER_LEN,
    ensures
        bytes == seq![bytes[0]] + le_u32(announced_len(bytes)) + bytes.skip(HEADER_LEN as int),
{
    lemma_from_le_u32_round_trip(bytes[1], bytes[2], bytes[3], bytes[4]);
    assert(bytes =~= seq![bytes[0]] + seq![bytes[1], bytes[2], bytes[3], bytes[4]] + bytes.skip(
        HEADER_LEN as int,
    ));
}

/// No request is read out of bytes that do not spell it: where a read
/// succeeds, the stream is the message as it is written, followed by what
/// the read left.
pub proof fn lemma_client_read_is_exact(bytes: Seq<u8>)
    requires
        decode_client(bytes).result is Ok,
    ensures
        client_encodable(decode_client(bytes).result->Ok_0),
        bytes == encode_client(decode_client(bytes).result->Ok_0) + decode_client(bytes).rest,
{
    let len = announced_len(bytes) as int;
    let body = bytes.skip(HEADER_LEN as int);
    let payload = body.take(len);
    lemma_header_parts(bytes);
    lemma_bytes_round_trip(payload);
    assert(body =~= payload + body.skip(len));
    assert(bytes =~= frame(TAG_AUDIO_SEGMENT, payload) + body.skip(len));
}

/// No transcript and no failure report is read out of bytes that do not
/// spell it: where a read gives `Text` or `Error`, the stream is the
/// message as it is written, followed by what the read left.
pub proof fn lemma_server_read_is_exact(bytes: Seq<u8>)
    requires
        decode_server(bytes).result is Ok,
        !(decode_server(bytes).result->Ok_0 is Ready),
    ensures
        server_encodable(decode_server(bytes).result->Ok_0),
        bytes == encode_server(decode_server(bytes).result->Ok_0) + decode_server(bytes).rest,
{
    let len = announced_len(bytes) as int;
    let body = bytes.skip(HEADER_LEN as int);
    let payload = body.take(len);
    lemma_header_parts(bytes);
    decode_utf8_encode_utf8(payload);
    assert(body =~= payload + body.skip(len));
    assert(bytes =~= frame(bytes[0], payload) + body.skip(len));
}

/// Several client messages written one behind the other.
pub open spec fn encode_client_stream(msgs: Seq<ClientFrame>) -> Seq<u8>
    decreases msgs.len(),
{
    if msgs.len() == 0 {
        Seq::empty()
    } else {
        encode_client(msgs[0]) + encode_client_stream(msgs.drop_first())
    }
}

/// Several server messages written one behind the other.
pub open spec fn encode_server_stream(msgs: Seq<ServerFrame>) -> Seq<u8>
    decreases msgs.len(),
{
    if msgs.len() == 0 {
        Seq::empty()
    } else {
        encode_server(msgs[0]) + encode_server_stream(msgs.drop_first())
    }
}

/// The outcomes of `count` reads in a row, and what is left after them.
pub open spec fn decode_client_stream(bytes: Seq<u8>, count: nat) -> (
    Seq<Result<ClientFrame, ProtocolError>>,
    Seq<u8>,
)
    decreases count,
{
    if count == 0 {
        (Seq::empty(), bytes)
    } else {
        let first = decode_client(bytes);
        let (later, rest) = decode_client_stream(first.rest, (count - 1) as nat);
        (seq![first.result] + later, rest)
    }
}

/// The outcomes of `count` reads in a row, and what is left after them.
pub open spec fn decode_server_stream(bytes: Seq<u8>, count: nat) -> (
    Seq<Result<ServerFrame, ProtocolError>>,
    Seq<u8>,
)
    decreases count,
{
    if count == 0 {
        (Seq::empty(), bytes)
    } else {
        let first = decode_server(bytes);
        let (later, rest) = decode_server_stream(first.rest, (count - 1) as nat);
        (seq![first.result] + later, rest)
    }
}

/// Requests written one behind the other are read back one by one, in the
/// order written, each unchanged, and the reads stop exactly where the last
/// message ends.
pub proof fn lemma_client_stream_round_trip(msgs: Seq<ClientFrame>, rest: Seq<u8>)
    requires
        forall|i: int| 0 <= i < msgs.len() ==> client_encodable(#[trigger] msgs[i]),
    ensures
        decode_client_stream(encode_client_stream(msgs) + rest, msgs.len()).0 == msgs.map_values(
            |m: ClientFrame| Ok::<ClientFrame, ProtocolError>(m),
        ),
        decode_client_stream(encode_client_stream(msgs) + rest, msgs.len()).1 == rest,
    decreases msgs.len(),
{
    let wrap = |m: ClientFrame| Ok::<ClientFrame, ProtocolError>(m);
    if msgs.len() == 0 {
        assert(encode_client_stream(msgs) + rest =~= rest);
        assert(decode_client_stream(rest, 0).0 =~= msgs.map_values(wrap));
    } else {
        let tail = msgs.drop_first();
        let behind = encode_client_stream(tail) + rest;
        assert(encode_client_stream(msgs) + rest =~= encode_client(msgs[0]) + behind);
        lemma_client_round_trip(msgs[0], behind);
        assert forall|i: int| 0 <= i < tail.len() implies client_encodable(#[trigger] tail[i]) by {
            assert(tail[i] == msgs[i + 1]);
        }
        lemma_client_stream_round_trip(tail, rest);
        assert(seq![wrap(msgs[0])] + tail.map_values(wrap) =~= msgs.map_values(wrap));
    }
}

/// Responses written one behind the other are read back one by one, in the
/// order written, each unchanged, and the reads stop exactly where the last
/// message ends.
pub proof fn lemma_server_stream_round_trip(msgs: Seq<ServerFrame>, rest: Seq<u8>)
    requires
        forall|i: int| 0 <= i < msgs.len() ==> server_encodable(#[trigger] msgs[i]),
    ensures
        decode_server_stream(encode_server_stream(msgs) + rest, msgs.len()).0 == msgs.map_values(
            |m: ServerFrame| Ok::<ServerFrame, ProtocolError>(m),
        ),
        decode_server_stream(encode_server_stream(msgs) + rest, msgs.len()).1 == rest,
    decreases msgs.len(),
{
    let wrap = |m: ServerFrame| Ok::<ServerFrame, ProtocolError>(m);
    if msgs.len() == 0 {
        assert(encode_server_stream(msgs) + rest =~= rest);
        assert(decode_server_stream(rest, 0).0 =~= msgs.map_values(wrap));
    } else {
        let tail = msgs.drop_first();
        let behind = encode_server_stream(tail) + rest;
        assert(encode_server_stream(msgs) + rest =~= encode_server(msgs[0]) + behind);
        lemma_server_round_trip(msgs[0], behind);
        assert forall|i: int| 0 <= i < tail.len() implies server_encodable(#[trigger] tail[i]) by {
            assert(tail[i] == msgs[i + 1]);
        }
        lemma_server_stream_round_trip(tail, rest);
        assert(seq![wrap(msgs[0])] + tail.map_values(wrap) =~= msgs.map_values(wrap));
    }
}

} // verus!
