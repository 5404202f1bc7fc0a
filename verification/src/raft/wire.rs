//! Bytes on the wire between peers: big-endian numbers, frames and the handshake.
//!
//! A handshake is the sender's node id in 8 bytes, the length of its secret in 4 bytes, the secret
//! (none if the length is zero), one byte that is 1 if a cluster incarnation follows and 0 if not,
//! and the incarnation in 16 bytes. A frame is the length of its body in 4 bytes, and the body. All
//! numbers are big-endian.

use vstd::prelude::*;

use vstd::utf8::{decode_utf8, encode_utf8, valid_utf8};

use crate::text::{decimal, push_decimal, push_text};

verus! {

/// Length cap (bytes) on the secret of a handshake.
pub const MAX_SECRET_BYTES: u32 = 256;

/// Read deadline of a handshake on the accepting side (seconds).
pub const HANDSHAKE_READ_TIMEOUT_SECS: u64 = 5;

/// The lowest `len` bytes of a number, most significant first.
pub open spec fn be(n: nat, len: nat) -> Seq<u8>
    decreases len,
{
    if len == 0 {
        Seq::empty()
    } else {
        be(n / 256, (len - 1) as nat).push((n % 256) as u8)
    }
}

/// The number that bytes stand for, most significant first.
pub open spec fn be_value(bytes: Seq<u8>) -> nat
    decreases bytes.len(),
{
    if bytes.len() == 0 { 0 } else { be_value(bytes.drop_last()) * 256 + bytes.last() as nat }
}

/// How many numbers fit in `len` bytes.
pub open spec fn capacity(len: nat) -> nat
    decreases len,
{
    if len == 0 { 1 } else { capacity((len - 1) as nat) * 256 }
}

pub proof fn lemma_capacity()
    ensures
        capacity(4) == 0x1_0000_0000,
        capacity(8) == 0x1_0000_0000_0000_0000,
        capacity(16) == 0x1_0000_0000_0000_0000_0000_0000_0000_0000,
{
    reveal_with_fuel(capacity, 17);
}

/// Reading a written number gives it back.
pub proof fn lemma_be(n: nat, len: nat)
    requires
        n < capacity(len),
    ensures
        be(n, len).len() == len,
        be_value(be(n, len)) == n,
    decreases len,
{
    if len > 0 {
        lemma_be(n / 256, (len - 1) as nat);
        assert(be(n, len).drop_last() =~= be(n / 256, (len - 1) as nat));
    }
}

proof fn lemma_be_value_bound(bytes: Seq<u8>)
    ensures
        be_value(bytes) < capacity(bytes.len()),
    decreases bytes.len(),
{
    if bytes.len() > 0 {
        lemma_be_value_bound(bytes.drop_last());
    }
}

proof fn lemma_capacity_grows(a: nat, b: nat)
    requires
        a <= b,
    ensures
        capacity(a) <= capacity(b),
    decreases b,
{
    if a < b {
        lemma_capacity_grows(a, (b - 1) as nat);
    }
}

/// Append a number.
fn push_be(out: &mut Vec<u8>, n: u128, len: usize)
    ensures
        final(out)@ == old(out)@ + be(n as nat, len as nat),
    decreases len,
{
    if len > 0 {
        push_be(out, n / 256, len - 1);
        out.push((n % 256) as u8);
    }
    assert(out@ =~= old(out)@ + be(n as nat, len as nat));
}

/// Read a number of at most 16 bytes.
fn read_be(bytes: &[u8], from: usize, len: usize) -> (n: u128)
    requires
        from + len <= bytes@.len(),
        len <= 16,
    ensures
        n == be_value(bytes@.subrange(from as int, from + len)),
        n < capacity(len as nat),
{
    let total: usize = bytes.len();
    let mut n: u128 = 0;
    let mut i: usize = 0;
    while i < len
        invariant
            i <= len <= 16,
            from + len <= total == bytes@.len(),
            n == be_value(bytes@.subrange(from as int, from + i)),
            n < capacity(i as nat),
        decreases len - i,
    {
        proof {
            let upto = bytes@.subrange(from as int, from + i + 1);
            assert(upto.drop_last() =~= bytes@.subrange(from as int, from + i));
            assert(upto.last() == bytes@[from + i]);
            lemma_be_value_bound(upto);
            lemma_capacity();
            lemma_capacity_grows((i + 1) as nat, 16);
        }
        n = n * 256 + bytes[from + i] as u128;
        i += 1;
    }
    n
}

/// The number that 16 bytes stand for.
pub fn cluster_id_from(bytes: &[u8; 16]) -> (id: u128)
    ensures
        id == be_value(bytes@),
{
    let id: u128 = read_be(bytes, 0, 16);
    assert(bytes@.subrange(0, 16) =~= bytes@);
    id
}

/// A frame around a body.
pub open spec fn frame(body: Seq<u8>) -> Seq<u8> {
    be(body.len(), 4) + body
}

/// A body that is too long to be sent or taken.
#[derive(Debug, Clone, Copy, PartialEq, Eq, Structural)]
pub struct Oversize {
    pub len: u64,
    pub max_frame_bytes: u32,
}

/// Append the bytes of a slice.
fn push_bytes(out: &mut Vec<u8>, bytes: &[u8])
    ensures
        final(out)@ == old(out)@ + bytes@,
{
    let ghost before = out@;
    let mut i: usize = 0;
    while i < bytes.len()
        invariant
            i <= bytes@.len(),
            out@ == before + bytes@.take(i as int),
        decreases bytes@.len() - i,
    {
        out.push(bytes[i]);
        i += 1;
        assert(out@ =~= before + bytes@.take(i as int));
    }
    assert(out@ =~= before + bytes@);
}

/// Frame a body, unless it is over the cap.
pub fn encode_frame(body: &[u8], max_frame_bytes: u32) -> (r: Result<Vec<u8>, Oversize>)
    ensures
        match r {
            Ok(bytes) => body@.len() <= max_frame_bytes && bytes@ == frame(body@),
            Err(e) => body@.len() > max_frame_bytes && e == (Oversize { len: body@.len() as u64, max_frame_bytes }),
        },
{
    let len: u64 = body.len() as u64;
    if len > max_frame_bytes as u64 {
        return Err(Oversize { len, max_frame_bytes });
    }
    let mut out: Vec<u8> = Vec::new();
    push_be(&mut out, len as u128, 4);
    push_bytes(&mut out, body);
    assert(out@ =~= frame(body@));
    Ok(out)
}

/// How far a frame has been read.
#[derive(Debug)]
pub enum FrameStep {
    /// So many more bytes have to be read next.
    Need(usize),
    /// The frame is complete; this is its body.
    Done(Vec<u8>),
    /// The announced body is over the cap.
    Refused(Oversize),
}

/// What has been read of a frame.
pub enum FrameState {
    Need(nat),
    Done(Seq<u8>),
    Refused(Oversize),
}

/// Where reading a frame stands: first the length, which is refused before anything else is read if
/// it is over the cap, then the body.
pub open spec fn frame_state(buf: Seq<u8>, max_frame_bytes: u32) -> FrameState {
    let n = be_value(buf.take(4));
    if buf.len() < 4 {
        FrameState::Need((4 - buf.len()) as nat)
    } else if n > max_frame_bytes {
        FrameState::Refused(Oversize { len: n as u64, max_frame_bytes })
    } else if buf.len() < 4 + n {
        FrameState::Need((4 + n - buf.len()) as nat)
    } else {
        FrameState::Done(buf.subrange(4, 4 + n as int))
    }
}

impl FrameStep {
    pub open spec fn state(self) -> FrameState {
        match self {
            FrameStep::Need(n) => FrameState::Need(n as nat),
            FrameStep::Done(body) => FrameState::Done(body@),
            FrameStep::Refused(e) => FrameState::Refused(e),
        }
    }
}

/// A part of some bytes.
fn bytes_part(bytes: &[u8], from: usize, to: usize) -> (part: Vec<u8>)
    requires
        from <= to <= bytes@.len(),
    ensures
        part@ == bytes@.subrange(from as int, to as int),
{
    let mut part: Vec<u8> = Vec::new();
    let mut i: usize = from;
    while i < to
        invariant
            from <= i <= to <= bytes@.len(),
            part@ == bytes@.subrange(from as int, i as int),
        decreases to - i,
    {
        part.push(bytes[i]);
        i += 1;
        assert(part@ =~= bytes@.subrange(from as int, i as int));
    }
    part
}

/// Look at what has been read of a frame so far, and say what to do next.
pub fn read_framed_bounded(buf: &[u8], max_frame_bytes: u32) -> (step: FrameStep)
    ensures
        step.state() == frame_state(buf@, max_frame_bytes),
{
    if buf.len() < 4 {
        return FrameStep::Need(4 - buf.len());
    }
    let n: u128 = read_be(buf, 0, 4);
    proof {
        assert(buf@.subrange(0, 4) =~= buf@.take(4));
        lemma_capacity();
    }
    if n > max_frame_bytes as u128 {
        return FrameStep::Refused(Oversize { len: n as u64, max_frame_bytes });
    }
    let have: usize = buf.len() - 4;
    let want: usize = n as usize;
    if have < want {
        return FrameStep::Need(want - have);
    }
    let body = bytes_part(buf, 4, 4 + want);
    FrameStep::Done(body)
}

/// What says that a body is over the cap.
#[derive(Debug, Clone, Copy, PartialEq, Eq, Structural)]
pub enum FrameKind {
    /// Announced by a Raft peer.
    Raft,
    /// Announced on the submit channel.
    Submit,
    /// A request to be submitted.
    SubmitRequest,
    /// An answer to a submitted request.
    SubmitResponse,
    /// A Raft request to be sent.
    AppendEntries,
    InstallSnapshot,
    Vote,
}

/// The message for a body over the cap.
pub open spec fn oversize_text(e: Oversize, kind: FrameKind) -> Seq<char> {
    let (n, max) = (decimal(e.len as nat), decimal(e.max_frame_bytes as nat));
    match kind {
        FrameKind::Raft => "frame size "@ + n + " exceeds max_frame_bytes "@ + max + "; refusing to allocate"@,
        FrameKind::Submit => "submit frame "@ + n + " bytes exceeds max_frame_bytes "@ + max,
        FrameKind::SubmitRequest => "submit request "@ + n + " bytes exceeds max_frame_bytes "@ + max,
        FrameKind::SubmitResponse => "submit response "@ + n + " bytes exceeds max_frame_bytes "@ + max,
        FrameKind::AppendEntries => "serialized AppendEntries rpc is "@ + n + " bytes, exceeds max_frame_bytes "@ + max,
        FrameKind::InstallSnapshot => "serialized InstallSnapshot rpc is "@ + n + " bytes, exceeds max_frame_bytes "@ + max,
        FrameKind::Vote => "serialized Vote rpc is "@ + n + " bytes, exceeds max_frame_bytes "@ + max,
    }
}

impl Oversize {
    pub fn message(&self, kind: FrameKind) -> (text: String)
        ensures
            text@ == oversize_text(*self, kind),
    {
        let (before, between): (&str, &str) = match kind {
            FrameKind::Raft => ("frame size ", " exceeds max_frame_bytes "),
            FrameKind::Submit => ("submit frame ", " bytes exceeds max_frame_bytes "),
            FrameKind::SubmitRequest => ("submit request ", " bytes exceeds max_frame_bytes "),
            FrameKind::SubmitResponse => ("submit response ", " bytes exceeds max_frame_bytes "),
            FrameKind::AppendEntries => ("serialized AppendEntries rpc is ", " bytes, exceeds max_frame_bytes "),
            FrameKind::InstallSnapshot => ("serialized InstallSnapshot rpc is ", " bytes, exceeds max_frame_bytes "),
            FrameKind::Vote => ("serialized Vote rpc is ", " bytes, exceeds max_frame_bytes "),
        };
        let mut s = String::new();
        push_text(&mut s, before);
        push_decimal(&mut s, self.len as u128);
        push_text(&mut s, between);
        push_decimal(&mut s, self.max_frame_bytes as u128);
        if kind == FrameKind::Raft {
            push_text(&mut s, "; refusing to allocate");
        }
        assert(s@ =~= oversize_text(*self, kind));
        s
    }
}

/// What is said of bytes that are no UTF-8.
pub uninterp spec fn utf8_error_text(bytes: Seq<u8>) -> Seq<char>;

/// [`String::from_utf8`] gives the text that valid UTF-8 stands for, and an error otherwise. How the
/// error describes the bytes is not stated.
#[verifier::external_body]
fn text_of(bytes: Vec<u8>) -> (r: Result<String, String>)
    ensures
        match r {
            Ok(text) => valid_utf8(bytes@) && text@ == decode_utf8(bytes@),
            Err(e) => !valid_utf8(bytes@) && e@ == utf8_error_text(bytes@),
        },
{
    String::from_utf8(bytes).map_err(|e| e.to_string())
}

/// What a peer says when it connects.
#[derive(Debug)]
pub struct Handshake {
    pub node_id: u64,
    pub secret: Option<String>,
    pub epoch: Option<u128>,
}

/// What a [`Handshake`] says.
pub struct HandshakeView {
    pub node_id: u64,
    pub secret: Option<Seq<char>>,
    pub epoch: Option<u128>,
}

impl View for Handshake {
    type V = HandshakeView;

    open spec fn view(&self) -> HandshakeView {
        HandshakeView {
            node_id: self.node_id,
            secret: match self.secret { Some(s) => Some(s@), None => None },
            epoch: self.epoch,
        }
    }
}

/// Why a handshake is refused.
#[derive(Debug)]
pub enum HandshakeError {
    SecretTooLong { len: u32 },
    SecretNotText { detail: String },
    BadFlag { flag: u8 },
}

/// What a [`HandshakeError`] says.
pub enum HandshakeProblem {
    SecretTooLong { len: u32 },
    SecretNotText { detail: Seq<char> },
    BadFlag { flag: u8 },
}

impl View for HandshakeError {
    type V = HandshakeProblem;

    open spec fn view(&self) -> HandshakeProblem {
        match self {
            HandshakeError::SecretTooLong { len } => HandshakeProblem::SecretTooLong { len: *len },
            HandshakeError::SecretNotText { detail } => HandshakeProblem::SecretNotText { detail: detail@ },
            HandshakeError::BadFlag { flag } => HandshakeProblem::BadFlag { flag: *flag },
        }
    }
}

/// The message for a refused handshake.
pub open spec fn handshake_problem_text(e: HandshakeProblem) -> Seq<char> {
    match e {
        HandshakeProblem::SecretTooLong { len } => "handshake secret length "@ + decimal(len as nat) + " too large"@,
        HandshakeProblem::SecretNotText { detail } => "utf8: "@ + detail,
        HandshakeProblem::BadFlag { flag } => "handshake incarnation flag "@ + decimal(flag as nat) + " invalid"@,
    }
}

impl HandshakeError {
    pub fn message(&self) -> (text: String)
        ensures
            text@ == handshake_problem_text(self@),
    {
        let mut s = String::new();
        match self {
            HandshakeError::SecretTooLong { len } => {
                push_text(&mut s, "handshake secret length ");
                push_decimal(&mut s, *len as u128);
                push_text(&mut s, " too large");
            },
            HandshakeError::SecretNotText { detail } => {
                push_text(&mut s, "utf8: ");
                push_text(&mut s, detail.as_str());
            },
            HandshakeError::BadFlag { flag } => {
                push_text(&mut s, "handshake incarnation flag ");
                push_decimal(&mut s, *flag as u128);
                push_text(&mut s, " invalid");
            },
        }
        assert(s@ =~= handshake_problem_text(self@));
        s
    }
}

/// The bytes of a secret, none if there is no secret.
pub open spec fn secret_bytes(secret: Option<Seq<char>>) -> Seq<u8> {
    match secret {
        Some(s) => encode_utf8(s),
        None => Seq::empty(),
    }
}

/// The bytes of a handshake.
pub open spec fn handshake_bytes(h: HandshakeView) -> Seq<u8> {
    let secret = secret_bytes(h.secret);
    be(h.node_id as nat, 8) + be(secret.len(), 4) + secret + match h.epoch {
        Some(e) => seq![1u8] + be(e as nat, 16),
        None => seq![0u8],
    }
}

/// The bytes to send first on a new connection.
pub fn write_handshake(node_id: u64, secret: Option<&str>, epoch: Option<u128>) -> (out: Vec<u8>)
    requires
        secret is Some ==> encode_utf8(secret->0@).len() <= u32::MAX,
    ensures
        out@ == handshake_bytes(HandshakeView {
            node_id,
            secret: match secret { Some(s) => Some(s@), None => None },
            epoch,
        }),
{
    let ghost h = HandshakeView {
        node_id,
        secret: match secret { Some(s) => Some(s@), None => None },
        epoch,
    };
    let mut out: Vec<u8> = Vec::new();
    push_be(&mut out, node_id as u128, 8);
    match secret {
        Some(s) => {
            let bytes = s.as_bytes();
            push_be(&mut out, bytes.len() as u128, 4);
            push_bytes(&mut out, bytes);
        },
        None => {
            push_be(&mut out, 0, 4);
        },
    }
    assert(out@ =~= be(node_id as nat, 8) + be(secret_bytes(h.secret).len(), 4) + secret_bytes(h.secret));
    match epoch {
        Some(e) => {
            out.push(1);
            push_be(&mut out, e, 16);
        },
        None => {
            out.push(0);
        },
    }
    assert(out@ =~= handshake_bytes(h));
    out
}

/// How far a handshake has been read.
#[derive(Debug)]
pub enum HandshakeStep {
    /// So many more bytes have to be read next.
    Need(usize),
    /// The handshake is complete.
    Done(Handshake),
    /// The handshake is refused.
    Refused(HandshakeError),
}

/// What has been read of a handshake.
pub enum HandshakeState {
    Need(nat),
    Done(HandshakeView),
    Refused(HandshakeProblem),
}

impl HandshakeStep {
    pub open spec fn state(self) -> HandshakeState {
        match self {
            HandshakeStep::Need(n) => HandshakeState::Need(n as nat),
            HandshakeStep::Done(h) => HandshakeState::Done(h@),
            HandshakeStep::Refused(e) => HandshakeState::Refused(e@),
        }
    }
}

/// Where reading a handshake stands: the node id, the length of the secret, which is refused before
/// anything else is read if it is too long, the secret, the flag and the incarnation.
pub open spec fn handshake_state(buf: Seq<u8>) -> HandshakeState {
    let len = buf.len();
    let n = be_value(buf.subrange(8, 12));
    let secret = buf.subrange(12, 12 + n as int);
    let flag = buf[12 + n as int];
    let node_id = be_value(buf.take(8)) as u64;
    let said = if n == 0 { None } else { Some(decode_utf8(secret)) };
    if len < 8 {
        HandshakeState::Need((8 - len) as nat)
    } else if len < 12 {
        HandshakeState::Need((12 - len) as nat)
    } else if n > MAX_SECRET_BYTES {
        HandshakeState::Refused(HandshakeProblem::SecretTooLong { len: n as u32 })
    } else if len < 12 + n {
        HandshakeState::Need((12 + n - len) as nat)
    } else if n > 0 && !valid_utf8(secret) {
        HandshakeState::Refused(HandshakeProblem::SecretNotText { detail: utf8_error_text(secret) })
    } else if len < 13 + n {
        HandshakeState::Need(1)
    } else if flag == 0 {
        HandshakeState::Done(HandshakeView { node_id, secret: said, epoch: None })
    } else if flag != 1 {
        HandshakeState::Refused(HandshakeProblem::BadFlag { flag })
    } else if len < 29 + n {
        HandshakeState::Need((29 + n - len) as nat)
    } else {
        HandshakeState::Done(HandshakeView {
            node_id,
            secret: said,
            epoch: Some(be_value(buf.subrange(13 + n as int, 29 + n as int)) as u128),
        })
    }
}

/// Look at what has been read of a handshake so far, and say what to do next.
pub fn read_handshake(buf: &[u8]) -> (step: HandshakeStep)
    ensures
        step.state() == handshake_state(buf@),
{
    let len: usize = buf.len();
    if len < 8 {
        return HandshakeStep::Need(8 - len);
    }
    if len < 12 {
        return HandshakeStep::Need(12 - len);
    }
    proof {
        lemma_capacity();
        assert(buf@.subrange(0, 8) =~= buf@.take(8));
    }
    let node_id: u64 = read_be(buf, 0, 8) as u64;
    let n: u32 = read_be(buf, 8, 4) as u32;
    if n > MAX_SECRET_BYTES {
        return HandshakeStep::Refused(HandshakeError::SecretTooLong { len: n });
    }
    let end: usize = 12 + n as usize;
    if len < end {
        return HandshakeStep::Need(end - len);
    }
    let secret = if n == 0 {
        None
    } else {
        let bytes = bytes_part(buf, 12, end);
        match text_of(bytes) {
            Ok(text) => Some(text),
            Err(detail) => return HandshakeStep::Refused(HandshakeError::SecretNotText { detail }),
        }
    };
    if len < end + 1 {
        return HandshakeStep::Need(1);
    }
    let flag: u8 = buf[end];
    if flag == 0 {
        return HandshakeStep::Done(Handshake { node_id, secret, epoch: None });
    }
    if flag != 1 {
        return HandshakeStep::Refused(HandshakeError::BadFlag { flag });
    }
    if len < end + 17 {
        return HandshakeStep::Need(end + 17 - len);
    }
    let epoch: u128 = read_be(buf, end + 1, 16);
    HandshakeStep::Done(Handshake { node_id, secret, epoch: Some(epoch) })
}

/// Reading a frame gives back the body that was framed.
pub proof fn law_frames_are_read_back(body: Seq<u8>, max_frame_bytes: u32)
    requires
        body.len() <= max_frame_bytes,
    ensures
        frame_state(frame(body), max_frame_bytes) == FrameState::Done(body),
{
    lemma_capacity();
    lemma_be(body.len(), 4);
    let buf = frame(body);
    assert(buf.take(4) =~= be(body.len(), 4));
    assert(buf.subrange(4, 4 + body.len() as int) =~= body);
}

/// Until a frame is complete, exactly what is missing of its length or of its body is asked for.
pub proof fn law_frames_are_read_without_excess(body: Seq<u8>, max_frame_bytes: u32, got: int)
    requires
        body.len() <= max_frame_bytes,
        0 <= got < frame(body).len(),
    ensures
        frame_state(frame(body).take(got), max_frame_bytes) matches FrameState::Need(n) && 0 < n && got + n <= frame(body).len(),
{
    lemma_capacity();
    lemma_be(body.len(), 4);
    let part = frame(body).take(got);
    if got >= 4 {
        assert(part.take(4) =~= be(body.len(), 4));
    }
}

/// A frame whose announced length is over the cap is refused on the length alone.
pub proof fn law_oversize_frames_are_refused(buf: Seq<u8>, max_frame_bytes: u32)
    requires
        buf.len() >= 4,
        be_value(buf.take(4)) > max_frame_bytes,
    ensures
        frame_state(buf, max_frame_bytes) is Refused,
{
}

/// Reading a handshake gives back who connects, the secret and the incarnation. An empty secret is
/// none.
pub proof fn law_handshakes_are_read_back(h: HandshakeView)
    requires
        h.secret is Some ==> 0 < h.secret->0.len() && encode_utf8(h.secret->0).len() <= MAX_SECRET_BYTES,
    ensures
        handshake_state(handshake_bytes(h)) == HandshakeState::Done(h),
{
    lemma_capacity();
    let secret = secret_bytes(h.secret);
    let n = secret.len() as int;
    lemma_be(h.node_id as nat, 8);
    lemma_be(secret.len(), 4);
    let buf = handshake_bytes(h);
    assert(buf.take(8) =~= be(h.node_id as nat, 8));
    assert(buf.subrange(8, 12) =~= be(secret.len(), 4));
    assert(buf.subrange(12, 12 + n) =~= secret);
    if let Some(s) = h.secret {
        vstd::utf8::encode_utf8_valid_utf8(s);
        vstd::utf8::encode_utf8_decode_utf8(s);
        if n == 0 {
            let none = Seq::<char>::empty();
            vstd::utf8::encode_utf8_decode_utf8(none);
            assert(encode_utf8(s) =~= encode_utf8(none));
            assert(s =~= none);
        }
    }
    if let Some(e) = h.epoch {
        lemma_be(e as nat, 16);
        assert(buf[12 + n] == 1);
        assert(buf.subrange(13 + n, 29 + n) =~= be(e as nat, 16));
    } else {
        assert(buf[12 + n] == 0);
    }
}

/// Until a handshake is complete, no more is asked for than what is missing of it, so that nothing of
/// what follows is taken with it.
pub proof fn law_handshakes_are_read_without_excess(h: HandshakeView, got: int)
    requires
        h.secret is Some ==> 0 < h.secret->0.len() && encode_utf8(h.secret->0).len() <= MAX_SECRET_BYTES,
        0 <= got < handshake_bytes(h).len(),
    ensures
        handshake_state(handshake_bytes(h).take(got)) matches HandshakeState::Need(n) && 0 < n
            && got + n <= handshake_bytes(h).len(),
{
    lemma_capacity();
    let secret = secret_bytes(h.secret);
    let n = secret.len() as int;
    lemma_be(h.node_id as nat, 8);
    lemma_be(secret.len(), 4);
    let part = handshake_bytes(h).take(got);
    if got >= 12 {
        assert(part.subrange(8, 12) =~= be(secret.len(), 4));
    }
    if got >= 12 + n {
        assert(part.subrange(12, 12 + n) =~= secret);
        if let Some(s) = h.secret {
            vstd::utf8::encode_utf8_valid_utf8(s);
        }
    }
    if let Some(e) = h.epoch {
        lemma_be(e as nat, 16);
        if got >= 13 + n {
            assert(part[12 + n] == 1);
        }
    }
}

/// The bytes before and the bytes after make up the number together, those before counting for more.
proof fn lemma_be_value_joined(a: Seq<u8>, b: Seq<u8>)
    ensures
        be_value(a + b) == be_value(a) * capacity(b.len()) + be_value(b),
    decreases b.len(),
{
    if b.len() == 0 {
        assert(a + b =~= a);
        assert(be_value(a) * 1 == be_value(a)) by (nonlinear_arith);
    } else {
        let front = b.drop_last();
        lemma_be_value_joined(a, front);
        assert((a + b).drop_last() =~= a + front);
        assert((a + b).last() == b.last());
        let (x, y) = (be_value(a), capacity(front.len()));
        assert((x * y) * 256 == x * (y * 256)) by (nonlinear_arith);
    }
}

proof fn lemma_four_bytes(s: Seq<u8>)
    requires
        s.len() == 4,
    ensures
        be_value(s) == s[0] * 0x100_0000 + s[1] * 0x1_0000 + s[2] * 0x100 + s[3],
{
    reveal_with_fuel(be_value, 5);
    let (c, b, a) = (s.drop_last(), s.drop_last().drop_last(), s.drop_last().drop_last().drop_last());
    assert(a.drop_last() =~= Seq::<u8>::empty());
    assert(be_value(a) == s[0]);
    assert(be_value(b) == be_value(a) * 256 + s[1]);
    assert(be_value(c) == be_value(b) * 256 + s[2]);
}

/// Eight bytes as a number, the first one most significant.
pub open spec fn eight_bytes(s: Seq<u8>, at: int) -> int {
    s[at] * 0x100_0000_0000_0000 + s[at + 1] * 0x1_0000_0000_0000 + s[at + 2] * 0x100_0000_0000 + s[at + 3] * 0x1_0000_0000 + s[at + 4]
        * 0x100_0000 + s[at + 5] * 0x1_0000 + s[at + 6] * 0x100 + s[at + 7]
}

/// Four bytes as a number, the first one most significant.
pub open spec fn four_bytes(s: Seq<u8>, at: int) -> int {
    s[at] * 0x100_0000 + s[at + 1] * 0x1_0000 + s[at + 2] * 0x100 + s[at + 3]
}

proof fn lemma_numbers_at(s: Seq<u8>, at: int)
    requires
        0 <= at,
    ensures
        at + 4 <= s.len() ==> be_value(s.subrange(at, at + 4)) == four_bytes(s, at),
        at + 8 <= s.len() ==> be_value(s.subrange(at, at + 8)) == eight_bytes(s, at),
        at + 16 <= s.len() ==> be_value(s.subrange(at, at + 16)) == eight_bytes(s, at) * 0x1_0000_0000_0000_0000 + eight_bytes(s, at + 8),
    decreases s.len(),
{
    lemma_capacity();
    if at + 4 <= s.len() {
        lemma_four_bytes(s.subrange(at, at + 4));
    }
    if at + 8 <= s.len() {
        let (a, b) = (s.subrange(at, at + 4), s.subrange(at + 4, at + 8));
        lemma_four_bytes(b);
        lemma_be_value_joined(a, b);
        assert(a + b =~= s.subrange(at, at + 8));
    }
    if at + 16 <= s.len() {
        let (a, b) = (s.subrange(at, at + 8), s.subrange(at + 8, at + 16));
        lemma_numbers_at(s.subrange(at + 8, at + 16), 0);
        assert(b.subrange(0, 8) =~= b);
        lemma_be_value_joined(a, b);
        assert(a + b =~= s.subrange(at, at + 16));
    }
}

/// A frame is written exactly if its body is within the cap: the length in four bytes, the most
/// significant first, and then the body.
pub proof fn law_a_frame_is_its_length_and_its_body(body: &[u8], max_frame_bytes: u32, r: Result<Vec<u8>, Oversize>)
    requires
        call_ensures(encode_frame, (body, max_frame_bytes), r),
    ensures
        r is Ok <==> body@.len() <= max_frame_bytes,
        r matches Ok(bytes) ==> {
            &&& bytes@.len() == 4 + body@.len()
            &&& four_bytes(bytes@, 0) == body@.len()
            &&& bytes@.skip(4) == body@
        },
{
    if let Ok(bytes) = r {
        lemma_capacity();
        lemma_be(body@.len(), 4);
        lemma_numbers_at(bytes@, 0);
        assert(bytes@.subrange(0, 4) =~= be(body@.len(), 4));
        assert(bytes@.skip(4) =~= body@);
    }
}

/// Reading a frame: the announced length decides. Over the cap it is refused, whatever follows; within
/// it the body is what stands behind the length, and until it is there exactly what is missing is asked
/// for.
pub proof fn law_the_announced_length_decides(buf: &[u8], max_frame_bytes: u32, step: FrameStep)
    requires
        call_ensures(read_framed_bounded, (buf, max_frame_bytes), step),
    ensures
        buf@.len() < 4 ==> (step matches FrameStep::Need(n) && n + buf@.len() == 4),
        buf@.len() >= 4 ==> {
            let len = four_bytes(buf@, 0);
            &&& len > max_frame_bytes <==> step is Refused
            &&& len <= max_frame_bytes && buf@.len() < 4 + len ==> (step matches FrameStep::Need(n) && n + buf@.len() == 4 + len)
            &&& len <= max_frame_bytes && buf@.len() >= 4 + len ==> (step matches FrameStep::Done(body) && body@ == buf@.subrange(4, 4 + len))
            &&& step matches FrameStep::Refused(over) ==> over.len == len && over.max_frame_bytes == max_frame_bytes
        },
{
    lemma_capacity();
    if buf@.len() >= 4 {
        lemma_numbers_at(buf@, 0);
        assert(buf@.subrange(0, 4) =~= buf@.take(4));
        lemma_be_value_bound(buf@.take(4));
    }
    assert(step.state() == frame_state(buf@, max_frame_bytes));
}

/// The bytes of a handshake: the node id in eight bytes, the number of bytes of the secret in four, the
/// secret, a one and sixteen bytes of incarnation, or a zero. The most significant byte comes first.
pub proof fn law_a_handshake_says_who_connects(node_id: u64, secret: Option<&str>, epoch: Option<u128>, out: Vec<u8>)
    requires
        secret is Some ==> encode_utf8(secret->0@).len() <= u32::MAX,
        call_ensures(write_handshake, (node_id, secret, epoch), out),
    ensures
        ({
            let said = match secret { Some(s) => encode_utf8(s@), None => Seq::empty() };
            let n = said.len() as int;
            &&& out@.len() == 13 + n + if epoch is Some { 16int } else { 0 }
            &&& eight_bytes(out@, 0) == node_id
            &&& four_bytes(out@, 8) == n
            &&& out@.subrange(12, 12 + n) == said
            &&& out@[12 + n] == if epoch is Some { 1u8 } else { 0u8 }
            &&& epoch matches Some(e) ==> eight_bytes(out@, 13 + n) * 0x1_0000_0000_0000_0000 + eight_bytes(out@, 21 + n) == e
        }),
{
    lemma_capacity();
    let said = match secret { Some(s) => encode_utf8(s@), None => Seq::empty() };
    let n = said.len() as int;
    lemma_be(node_id as nat, 8);
    lemma_be(said.len(), 4);
    lemma_numbers_at(out@, 0);
    lemma_numbers_at(out@, 8);
    assert(out@.subrange(0, 8) =~= be(node_id as nat, 8));
    assert(out@.subrange(8, 12) =~= be(said.len(), 4));
    assert(out@.subrange(12, 12 + n) =~= said);
    if let Some(e) = epoch {
        lemma_be(e as nat, 16);
        lemma_numbers_at(out@, 13 + n);
        assert(out@.subrange(13 + n, 29 + n) =~= be(e as nat, 16));
    }
}

/// A handshake is taken exactly if its secret has at most 256 bytes and is text, the flag is a zero or a
/// one, and everything is there; and then it says what its bytes say. A secret that is too long is
/// refused as soon as its length is known.
pub proof fn law_a_handshake_is_taken_as_it_was_said(buf: &[u8], step: HandshakeStep)
    requires
        call_ensures(read_handshake, (buf,), step),
    ensures
        step is Done ==> buf@.len() >= 13,
        buf@.len() >= 12 ==> {
            let n = four_bytes(buf@, 8);
            let said = buf@.subrange(12, 12 + n);
            let flag = buf@[12 + n];
            &&& n > 256 <==> (step matches HandshakeStep::Refused(HandshakeError::SecretTooLong { .. }))
            &&& step is Done <==> {
                &&& n <= 256 && buf@.len() >= 13 + n
                &&& n == 0 || valid_utf8(said)
                &&& flag == 0 || (flag == 1 && buf@.len() >= 29 + n)
            }
            &&& step matches HandshakeStep::Done(h) ==> {
                &&& h.node_id == eight_bytes(buf@, 0)
                &&& n == 0 <==> h.secret is None
                &&& h.secret matches Some(s) ==> s@ == decode_utf8(said)
                &&& flag == 0 <==> h.epoch is None
                &&& h.epoch matches Some(e) ==> e == eight_bytes(buf@, 13 + n) * 0x1_0000_0000_0000_0000 + eight_bytes(buf@, 21 + n)
            }
        },
{
    lemma_capacity();
    assert(step.state() == handshake_state(buf@));
    if buf@.len() >= 12 {
        lemma_numbers_at(buf@, 0);
        lemma_numbers_at(buf@, 8);
        assert(buf@.subrange(0, 8) =~= buf@.take(8));
        lemma_be_value_bound(buf@.take(8));
        lemma_be_value_bound(buf@.subrange(8, 12));
        let n = four_bytes(buf@, 8);
        if buf@.len() >= 29 + n {
            lemma_numbers_at(buf@, 13 + n);
            lemma_be_value_bound(buf@.subrange(13 + n, 29 + n));
        }
    }
}

/// An incarnation is made of all sixteen bytes, the first one most significant.
pub proof fn law_an_incarnation_is_made_of_all_its_bytes(bytes: &[u8; 16], id: u128)
    requires
        call_ensures(cluster_id_from, (bytes,), id),
    ensures
        id == eight_bytes(bytes@, 0) * 0x1_0000_0000_0000_0000 + eight_bytes(bytes@, 8),
{
    lemma_numbers_at(bytes@, 0);
    assert(bytes@.subrange(0, 16) =~= bytes@);
}

} // verus!
