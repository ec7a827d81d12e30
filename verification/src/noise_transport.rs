//! Noise transport: keys, and the frames of an encrypted byte stream.
//!
//! Wire format: each message is prefixed with a 2-byte big-endian length, followed by the
//! encrypted noise frame.
//!
//! A transport counts the messages of each direction: frames must be decrypted in the exact
//! order they were encrypted, and a frame must never be encrypted twice. So the codec keeps
//! three fully independent buffers:
//!
//! * `read_plain`   — decrypted plaintext already produced, not yet handed out.
//! * `read_cipher`  — inbound wire bytes accumulating toward one full frame.
//! * `write_cipher` — outbound encrypted bytes awaiting flush to the wire.

use bytes::BytesMut;
use snow::TransportState;
use vstd::prelude::*;
use vstd::utf8::*;

use crate::buffers;
use crate::codec;
use crate::digest;

verus! {

pub const PATTERN: &'static str = "Noise_XXpsk3_25519_ChaChaPoly_BLAKE2s";

/// 2-byte big-endian length prefix for each noise frame.
pub const FRAME_LEN_SIZE: usize = 2;

pub const MAX_NOISE_MSG: usize = 65535;

/// Authentication tag appended to every transport message.
pub const TAG_LEN: usize = 16;

/// The most that one message carries.
pub const MAX_PAYLOAD: usize = 65519;

// ── the transport ────────────────────────────────────────────────────────────

/// The error type of `snow`.
#[verifier::external_type_specification]
#[verifier::external_body]
pub struct ExSnowError(snow::Error);

/// The transport phase of a Noise session.
#[verifier::external_type_specification]
#[verifier::external_body]
pub struct ExTransportState(snow::TransportState);

/// The secret that a transport seals messages with.
pub uninterp spec fn out_secret(t: TransportState) -> Seq<u8>;

/// How many messages a transport has sealed.
pub uninterp spec fn out_count(t: TransportState) -> nat;

/// The secret that a transport opens messages with.
pub uninterp spec fn in_secret(t: TransportState) -> Seq<u8>;

/// How many messages a transport has opened.
pub uninterp spec fn in_count(t: TransportState) -> nat;

/// Both sides of a session send.
pub uninterp spec fn two_way(t: TransportState) -> bool;

/// The message that carries `payload` as number `n` under a secret; nothing where there is no
/// such message.
pub uninterp spec fn sealed(secret: Seq<u8>, n: nat, payload: Seq<u8>) -> Option<Seq<u8>>;

/// The payload of message number `n` under a secret; nothing where the message is not genuine.
pub uninterp spec fn opened(secret: Seq<u8>, n: nat, message: Seq<u8>) -> Option<Seq<u8>>;

/// `TransportState::write_message`: writes the message with the next number to the start of
/// `out` and counts it. The message is longer than its payload by the tag, is at most 65535
/// bytes long, and opens to the payload under the same secret and number. It fails where `out`
/// is too short or there is no message, and counts nothing. Where both sides send there is one
/// for every payload that fits in a message, until the numbers are used up.
#[verifier::external_body]
fn seal_message(t: &mut TransportState, payload: &[u8], out: &mut Vec<u8>) -> (r: Result<
    usize,
    snow::Error,
>)
    ensures
        final(out)@.len() == old(out)@.len(),
        two_way(*final(t)) == two_way(*old(t)),
        two_way(*old(t)) && payload@.len() <= 65519 && out_count(*old(t)) < u64::MAX ==> sealed(
            out_secret(*old(t)),
            out_count(*old(t)),
            payload@,
        ) is Some,
        out_secret(*final(t)) == out_secret(*old(t)),
        in_secret(*final(t)) == in_secret(*old(t)),
        in_count(*final(t)) == in_count(*old(t)),
        out_count(*final(t)) == out_count(*old(t)) + (if r is Ok {
            1nat
        } else {
            0nat
        }),
        r is Ok == (sealed(out_secret(*old(t)), out_count(*old(t)), payload@) is Some
            && payload@.len() + 16 <= old(out)@.len()),
        r matches Ok(n) ==> {
            let message = final(out)@.take(n as int);
            &&& n == payload@.len() + 16
            &&& n <= 65535
            &&& n <= final(out)@.len()
            &&& sealed(out_secret(*old(t)), out_count(*old(t)), payload@) == Some(message)
            &&& opened(out_secret(*old(t)), out_count(*old(t)), message) == Some(payload@)
        },
{
    t.write_message(payload, out)
}

/// `TransportState::read_message`: opens the message with the next number, writes the payload
/// to the start of `out` and counts it. The payload is shorter than the message by the tag.
/// It fails where the message is not genuine or `out` is too short for the payload, and
/// counts nothing.
#[verifier::external_body]
fn open_message(t: &mut TransportState, message: &[u8], out: &mut Vec<u8>) -> (r: Result<
    usize,
    snow::Error,
>)
    ensures
        final(out)@.len() == old(out)@.len(),
        two_way(*final(t)) == two_way(*old(t)),
        out_secret(*final(t)) == out_secret(*old(t)),
        in_secret(*final(t)) == in_secret(*old(t)),
        out_count(*final(t)) == out_count(*old(t)),
        in_count(*final(t)) == in_count(*old(t)) + (if r is Ok {
            1nat
        } else {
            0nat
        }),
        r is Ok == (opened(in_secret(*old(t)), in_count(*old(t)), message@) is Some
            && message@.len() <= old(out)@.len() + 16),
        r matches Ok(n) ==> {
            &&& n + 16 == message@.len()
            &&& n <= final(out)@.len()
            &&& opened(in_secret(*old(t)), in_count(*old(t)), message@) == Some(
                final(out)@.take(n as int),
            )
        },
{
    t.read_message(message, out)
}

// ── keys ─────────────────────────────────────────────────────────────────────

/// Why a key was refused.
#[derive(PartialEq, Eq, Structural, Clone, Copy, Debug)]
pub enum KeyError {
    NotBase64,
    /// With the length in bytes.
    WrongLength(usize),
    /// No key could be generated.
    NotGenerated,
}

/// `Builder::generate_keypair` for a Noise pattern: the private key. It is 32 bytes long for
/// every pattern that is supported. Which one is left to chance.
#[verifier::external_body]
fn generate_keypair(pattern: &str) -> (r: Result<Vec<u8>, snow::Error>)
    ensures
        r matches Ok(k) ==> k@.len() == 32,
{
    snow::Builder::new(pattern.parse()?).generate_keypair().map(|k| k.private)
}

/// Generate a new Curve25519 keypair and return the private key as base64.
pub fn generate_private_key() -> (r: Result<String, KeyError>)
    ensures
        r matches Ok(s) ==> (codec::base64_bytes(s@) matches Some(k) && k.len() == 32),
        r is Err ==> r == Err::<String, KeyError>(KeyError::NotGenerated),
{
    match generate_keypair(PATTERN) {
        Ok(key) => Ok(codec::base64_encode(key.as_slice())),
        Err(_) => Err(KeyError::NotGenerated),
    }
}

/// `r` says whether `decoded` is a private key: it is exactly 32 bytes long.
pub open spec fn key_answer(decoded: Option<Seq<u8>>, r: Result<Vec<u8>, KeyError>) -> bool {
    match decoded {
        None => r == Err::<Vec<u8>, KeyError>(KeyError::NotBase64),
        Some(k) => if k.len() == 32 {
            r matches Ok(v) && v@ == k
        } else {
            r matches Err(KeyError::WrongLength(n)) && n == k.len()
        },
    }
}

/// Decode a base64 Curve25519 private key from config. A valid key is exactly
/// 32 bytes; an empty or wrong-length value is rejected rather than silently
/// accepted (base64 of "" decodes to an empty Vec, which would otherwise pass).
pub fn decode_private_key(b64: &str) -> (r: Result<Vec<u8>, KeyError>)
    ensures
        key_answer(codec::base64_bytes(b64@), r),
        r matches Ok(v) ==> codec::base64_text(v@) == b64@,
        b64@.len() == 0 ==> r is Err,
{
    check_private_key(codec::base64_decode(b64))
}

/// The private key that the text of a config decodes to; nothing is what text that is not
/// base64 decodes to.
pub fn check_private_key(decoded: Option<Vec<u8>>) -> (r: Result<Vec<u8>, KeyError>)
    ensures
        key_answer(
            match decoded {
                Some(v) => Some(v@),
                None => None,
            },
            r,
        ),
{
    match decoded {
        Some(bytes) => if bytes.len() == 32 {
            Ok(bytes)
        } else {
            Err(KeyError::WrongLength(bytes.len()))
        },
        None => Err(KeyError::NotBase64),
    }
}

/// Derive a 32-byte PSK from the cluster secret string.
///
/// The digest is exactly 32 bytes, which is the PSK length Noise requires, so no truncation is
/// involved. The cluster secret itself never goes on the wire — only this derived key
/// authenticates the handshake.
pub fn derive_psk(cluster_secret: &str) -> (r: [u8; 32])
    ensures
        r@ == digest::blake3_digest(encode_utf8(cluster_secret@)),
{
    digest::blake3_of(cluster_secret.as_bytes())
}

// ── frames ───────────────────────────────────────────────────────────────────

/// A length as two bytes, the high one first.
pub open spec fn length_prefix(n: nat) -> Seq<u8> {
    seq![(n / 256) as u8, (n % 256) as u8]
}

/// A message with its length in front.
pub open spec fn frame(message: Seq<u8>) -> Seq<u8> {
    length_prefix(message.len()) + message
}

/// The length that the frame at the start of `wire` announces.
pub open spec fn announced(wire: Seq<u8>) -> int {
    wire[0] * 256 + wire[1]
}

/// There is a complete frame at the start of `wire`.
pub open spec fn has_frame(wire: Seq<u8>) -> bool {
    wire.len() >= 2 && wire.len() >= 2 + announced(wire)
}

/// The message of the frame at the start of `wire`.
pub open spec fn first_message(wire: Seq<u8>) -> Seq<u8> {
    wire.subrange(2, 2 + announced(wire))
}

/// What follows the frame at the start of `wire`.
pub open spec fn behind_frame(wire: Seq<u8>) -> Seq<u8> {
    wire.skip(2 + announced(wire))
}

/// How much of `data` the next message carries.
pub open spec fn payload_len(data: Seq<u8>) -> int {
    if data.len() < MAX_PAYLOAD {
        data.len() as int
    } else {
        MAX_PAYLOAD as int
    }
}

/// The frames that carry `data`, with the numbers from `n` on, up to the first message that
/// there is none of.
pub open spec fn frames(secret: Seq<u8>, n: nat, data: Seq<u8>) -> Seq<u8>
    decreases data.len(),
{
    if data.len() == 0 {
        seq![]
    } else {
        let k = payload_len(data);
        match sealed(secret, n, data.take(k)) {
            None => seq![],
            Some(message) => frame(message) + frames(secret, n + 1, data.skip(k)),
        }
    }
}

/// How many frames that is.
pub open spec fn frames_sealed(secret: Seq<u8>, n: nat, data: Seq<u8>) -> nat
    decreases data.len(),
{
    if data.len() == 0 {
        0
    } else {
        let k = payload_len(data);
        match sealed(secret, n, data.take(k)) {
            None => 0,
            Some(_) => 1 + frames_sealed(secret, n + 1, data.skip(k)),
        }
    }
}

/// There is a message for every piece of `data`.
pub open spec fn sealable(secret: Seq<u8>, n: nat, data: Seq<u8>) -> bool
    decreases data.len(),
{
    data.len() == 0 || {
        let k = payload_len(data);
        sealed(secret, n, data.take(k)) is Some && sealable(secret, n + 1, data.skip(k))
    }
}

/// How many frames carry `len` bytes.
pub open spec fn frame_count(len: nat) -> nat {
    (len + MAX_PAYLOAD - 1) as nat / MAX_PAYLOAD as nat
}

/// What reading a wire comes to.
pub struct Reading {
    /// The payloads of the frames, one after the other.
    pub plain: Seq<u8>,
    /// What is left of the wire: the start of a frame, or a frame that is not genuine.
    pub rest: Seq<u8>,
    /// The number of the next message.
    pub next: nat,
    /// All complete frames were genuine.
    pub genuine: bool,
}

/// Reads all complete frames of `wire`, with the numbers from `n` on.
pub open spec fn reading(secret: Seq<u8>, n: nat, wire: Seq<u8>) -> Reading
    decreases wire.len(),
{
    if !has_frame(wire) {
        Reading { plain: seq![], rest: wire, next: n, genuine: true }
    } else {
        match opened(secret, n, first_message(wire)) {
            None => Reading { plain: seq![], rest: wire, next: n, genuine: false },
            Some(p) => {
                let tail = reading(secret, n + 1, behind_frame(wire));
                Reading { plain: p + tail.plain, ..tail }
            },
        }
    }
}

/// A frame that is not genuine comes before any plaintext.
pub open spec fn blocked(secret: Seq<u8>, n: nat, wire: Seq<u8>) -> bool
    decreases wire.len(),
{
    has_frame(wire) && match opened(secret, n, first_message(wire)) {
        None => true,
        Some(p) => p.len() == 0 && blocked(secret, n + 1, behind_frame(wire)),
    }
}

/// The bytes arrive the same however the wire is split: what is left of a first piece, read
/// together with the second, gives the rest.
pub proof fn lemma_reading_in_pieces(secret: Seq<u8>, n: nat, a: Seq<u8>, b: Seq<u8>)
    requires
        reading(secret, n, a).genuine,
    ensures
        ({
            let first = reading(secret, n, a);
            let second = reading(secret, first.next, first.rest + b);
            let whole = reading(secret, n, a + b);
            &&& whole.plain == first.plain + second.plain
            &&& whole.rest == second.rest
            &&& whole.next == second.next
            &&& whole.genuine == second.genuine
        }),
    decreases a.len(),
{
    let first = reading(secret, n, a);
    let second = reading(secret, first.next, first.rest + b);
    let whole = reading(secret, n, a + b);
    if has_frame(a) {
        assert(announced(a + b) == announced(a));
        assert(has_frame(a + b));
        assert(first_message(a + b) =~= first_message(a));
        assert(behind_frame(a + b) =~= behind_frame(a) + b);
        lemma_reading_in_pieces(secret, n + 1, behind_frame(a), b);
        assert(whole.plain =~= first.plain + second.plain);
    } else {
        assert(whole.plain =~= first.plain + second.plain);
    }
}

/// The frame of a message reads as that message.
proof fn lemma_frame(message: Seq<u8>, rest: Seq<u8>)
    requires
        message.len() <= 65535,
    ensures
        has_frame(frame(message) + rest),
        first_message(frame(message) + rest) == message,
        behind_frame(frame(message) + rest) == rest,
{
    let n = message.len();
    let wire = frame(message) + rest;
    assert(wire[0] == (n / 256) as u8);
    assert(wire[1] == (n % 256) as u8);
    assert((n / 256) * 256 + n % 256 == n);
    assert(first_message(wire) =~= message);
    assert(behind_frame(wire) =~= rest);
}

/// A frame that was sealed, in front of a wire that reads as `rest`, reads as its payload and
/// then the rest.
proof fn lemma_frame_reads(secret: Seq<u8>, n: nat, message: Seq<u8>, payload: Seq<u8>, wire: Seq<u8>)
    requires
        message.len() <= 65535,
        opened(secret, n, message) == Some(payload),
    ensures
        ({
            let whole = reading(secret, n, frame(message) + wire);
            let tail = reading(secret, n + 1, wire);
            &&& whole.plain == payload + tail.plain
            &&& whole.rest == tail.rest
            &&& whole.next == tail.next
            &&& whole.genuine == tail.genuine
        }),
{
    lemma_frame(message, wire);
}

/// Why a stream broke off.
#[derive(PartialEq, Eq, Structural, Clone, Copy, Debug)]
pub enum FrameError {
    /// A message is too large for a frame.
    TooLarge,
    /// The transport did not seal a message.
    NotSealed,
    /// The transport did not open a message.
    NotOpened,
    /// The connection closed mid-frame.
    UnexpectedEof,
}

/// A message with its length in front, as the handshake sends it.
pub fn encode_frame(data: &[u8]) -> (r: Result<Vec<u8>, FrameError>)
    ensures
        data@.len() <= 65535 ==> (r matches Ok(v) && v@ == frame(data@)),
        data@.len() > 65535 ==> r == Err::<Vec<u8>, FrameError>(FrameError::TooLarge),
{
    if data.len() > 65535 {
        return Err(FrameError::TooLarge);
    }
    let len: usize = data.len();
    let mut out: Vec<u8> = Vec::new();
    out.push((len / 256) as u8);
    out.push((len % 256) as u8);
    out.extend_from_slice(data);
    assert(out@ =~= frame(data@));
    Ok(out)
}

/// Encrypts and decrypts the traffic of one connection.
pub struct FrameCodec {
    transport: TransportState,
    read_plain: BytesMut,
    read_cipher: BytesMut,
    write_cipher: BytesMut,
    encrypted: Vec<u8>,
}

impl FrameCodec {
    /// The transport of the connection.
    pub closed spec fn state(self) -> TransportState {
        self.transport
    }

    /// The plaintext that was received and not handed out.
    pub closed spec fn plain(self) -> Seq<u8> {
        buffers::buffer_seq(self.read_plain)
    }

    /// The wire bytes that were received and not decrypted.
    pub closed spec fn inbound(self) -> Seq<u8> {
        buffers::buffer_seq(self.read_cipher)
    }

    /// The wire bytes that wait to be sent.
    pub closed spec fn outbound(self) -> Seq<u8> {
        buffers::buffer_seq(self.write_cipher)
    }

    pub closed spec fn wf(self) -> bool {
        self.encrypted@.len() == MAX_NOISE_MSG
    }

    /// A codec for a connection whose handshake is done.
    pub fn from_transport(transport: TransportState) -> (r: FrameCodec)
        ensures
            r.wf(),
            r.state() == transport,
            r.plain() == Seq::<u8>::empty(),
            r.inbound() == Seq::<u8>::empty(),
            r.outbound() == Seq::<u8>::empty(),
    {
        FrameCodec {
            transport,
            read_plain: buffers::buffer_with_capacity(0),
            read_cipher: buffers::buffer_with_capacity(0),
            write_cipher: buffers::buffer_with_capacity(0),
            encrypted: buffers::zeros(MAX_NOISE_MSG),
        }
    }

    /// Encrypts `buf` into frames behind the bytes that wait to be sent. Whoever reads these
    /// frames with the same secret, from the same number on, gets exactly `buf`.
    pub fn seal(&mut self, buf: &[u8]) -> (r: Result<(), FrameError>)
        requires
            old(self).wf(),
        ensures
            final(self).wf(),
            final(self).plain() == old(self).plain(),
            final(self).inbound() == old(self).inbound(),
            in_secret(final(self).state()) == in_secret(old(self).state()),
            in_count(final(self).state()) == in_count(old(self).state()),
            out_secret(final(self).state()) == out_secret(old(self).state()),
            two_way(final(self).state()) == two_way(old(self).state()),
            two_way(old(self).state()) && out_count(old(self).state()) + frame_count(buf@.len())
                <= u64::MAX ==> r is Ok,
            r is Err ==> r == Err::<(), FrameError>(FrameError::NotSealed),
            ({
                let secret = out_secret(old(self).state());
                let n = out_count(old(self).state());
                let wire = frames(secret, n, buf@);
                let next = out_count(final(self).state());
                &&& r is Ok == sealable(secret, n, buf@)
                &&& final(self).outbound() == old(self).outbound() + wire
                &&& next == n + frames_sealed(secret, n, buf@)
                &&& r is Ok ==> next == n + frame_count(buf@.len())
                &&& r is Ok ==> reading(secret, n, wire) == (Reading {
                    plain: buf@,
                    rest: seq![],
                    next,
                    genuine: true,
                })
            }),
    {
        let ghost secret = out_secret(self.transport);
        let ghost n = out_count(self.transport);
        let ghost was = *self;
        let mut at: usize = 0;
        let ghost mut sent: Seq<u8> = Seq::empty();
        proof {
            assert(buf@.skip(0) =~= buf@);
            assert(sent + frames(secret, n, buf@) =~= frames(secret, n, buf@));
            assert(self.outbound() =~= was.outbound() + sent);
            lemma_prefix_start(secret, n);
        }
        while at < buf.len()
            invariant
                at <= buf@.len(),
                was == *old(self),
                self.wf(),
                self.plain() == was.plain(),
                self.inbound() == was.inbound(),
                in_secret(self.transport) == in_secret(was.transport),
                in_count(self.transport) == in_count(was.transport),
                out_secret(self.transport) == secret,
                two_way(self.transport) == two_way(was.transport),
                secret == out_secret(was.transport),
                n == out_count(was.transport),
                at == buf@.len() || at % MAX_PAYLOAD == 0,
                out_count(self.transport) == n + frame_count(at as nat),
                self.outbound() == was.outbound() + sent,
                sent + frames(secret, out_count(self.transport), buf@.skip(at as int)) == frames(
                    secret,
                    n,
                    buf@,
                ),
                sealable(secret, out_count(self.transport), buf@.skip(at as int)) == sealable(
                    secret,
                    n,
                    buf@,
                ),
                frames_sealed(secret, n, buf@) == frame_count(at as nat) + frames_sealed(
                    secret,
                    out_count(self.transport),
                    buf@.skip(at as int),
                ),
                reads_as(secret, n, sent, buf@.take(at as int), out_count(self.transport)),
            decreases buf@.len() - at,
        {
            let left: usize = buf.len() - at;
            let k: usize = if left < MAX_PAYLOAD {
                left
            } else {
                MAX_PAYLOAD
            };
            let chunk = vstd::slice::slice_subrange(buf, at, at + k);
            let ghost c = out_count(self.transport);
            let ghost rest = buf@.skip(at as int);
            proof {
                assert(chunk@ =~= rest.take(k as int));
                assert(payload_len(rest) == k);
                assert(rest.skip(k as int) =~= buf@.skip(at + k));
                lemma_frame_count(at as nat, k as nat);
                lemma_frames_left((at + k) as nat, buf@.len());
            }
            let len: usize = match seal_message(&mut self.transport, chunk, &mut self.encrypted) {
                Ok(len) => len,
                Err(_) => {
                    assert(sent + frames(secret, c, rest) =~= sent);
                    return Err(FrameError::NotSealed);
                },
            };
            let message = vstd::slice::slice_subrange(self.encrypted.as_slice(), 0, len);
            let ghost m = message@;
            let framed = match encode_frame(message) {
                Ok(framed) => framed,
                Err(e) => {
                    return Err(e);
                },
            };
            let ghost before = buffers::buffer_seq(self.write_cipher);
            buffers::buffer_extend(&mut self.write_cipher, framed.as_slice());
            proof {
                assert(buffers::buffer_seq(self.write_cipher) =~= before + frame(m));
                let next = sent + frame(m);
                assert(frames(secret, c, rest) == frame(m) + frames(
                    secret,
                    c + 1,
                    buf@.skip(at + k),
                ));
                assert(next + frames(secret, c + 1, buf@.skip(at + k)) =~= sent + frames(
                    secret,
                    c,
                    rest,
                ));
                lemma_reads_on(secret, n, sent, buf@.take(at as int), c, m, chunk@);
                assert(buf@.take(at + k) =~= buf@.take(at as int) + chunk@);
                lemma_frame_count(at as nat, k as nat);
                assert(was.outbound() + next =~= (was.outbound() + sent) + frame(m));
                sent = next;
            }
            at = at + k;
        }
        proof {
            assert(buf@.skip(buf@.len() as int) =~= Seq::<u8>::empty());
            assert(sent =~= frames(secret, n, buf@));
            assert(buf@.take(buf@.len() as int) =~= buf@);
            lemma_reads_all(secret, n, sent, buf@, out_count(self.transport));
        }
        Ok(())
    }

    /// The wire bytes that wait to be sent.
    pub fn pending(&self) -> (r: &[u8])
        ensures
            r@ == self.outbound(),
    {
        buffers::buffer_slice(&self.write_cipher)
    }

    /// Forgets the first `n` wire bytes that waited: they were sent.
    pub fn sent(&mut self, n: usize)
        requires
            n <= old(self).outbound().len(),
            old(self).wf(),
        ensures
            final(self).wf(),
            final(self).outbound() == old(self).outbound().skip(n as int),
            final(self).state() == old(self).state(),
            final(self).plain() == old(self).plain(),
            final(self).inbound() == old(self).inbound(),
    {
        let _ = buffers::buffer_split_to(&mut self.write_cipher, n);
    }

    /// Takes in wire bytes.
    pub fn receive(&mut self, wire: &[u8])
        requires
            old(self).wf(),
        ensures
            final(self).wf(),
            final(self).inbound() == old(self).inbound() + wire@,
            final(self).state() == old(self).state(),
            final(self).plain() == old(self).plain(),
            final(self).outbound() == old(self).outbound(),
    {
        buffers::buffer_extend(&mut self.read_cipher, wire);
    }

    /// If the wire bytes hold at least one complete length-prefixed frame,
    /// consume it, decrypt it, and return the plaintext. Returns `Ok(None)`
    /// when more wire bytes are needed.
    pub fn try_decrypt_one_frame(&mut self) -> (r: Result<Option<Vec<u8>>, FrameError>)
        requires
            old(self).wf(),
        ensures
            final(self).wf(),
            final(self).plain() == old(self).plain(),
            final(self).outbound() == old(self).outbound(),
            out_secret(final(self).state()) == out_secret(old(self).state()),
            two_way(final(self).state()) == two_way(old(self).state()),
            out_count(final(self).state()) == out_count(old(self).state()),
            in_secret(final(self).state()) == in_secret(old(self).state()),
            ({
                let wire = old(self).inbound();
                let n = in_count(old(self).state());
                if !has_frame(wire) {
                    &&& r matches Ok(None)
                    &&& final(self).inbound() == wire
                    &&& in_count(final(self).state()) == n
                } else {
                    &&& final(self).inbound() == behind_frame(wire)
                    &&& match opened(in_secret(old(self).state()), n, first_message(wire)) {
                        Some(p) => (r matches Ok(Some(v)) && v@ == p) && in_count(
                            final(self).state(),
                        ) == n + 1,
                        None => r == Err::<Option<Vec<u8>>, FrameError>(FrameError::NotOpened)
                            && in_count(final(self).state()) == n,
                    }
                }
            }),
    {
        let ghost wire = self.inbound();
        let have: usize = buffers::buffer_len(&self.read_cipher);
        if have < FRAME_LEN_SIZE {
            return Ok(None);
        }
        let bytes = buffers::buffer_slice(&self.read_cipher);
        let frame_len: usize = bytes[0] as usize * 256 + bytes[1] as usize;
        if have < FRAME_LEN_SIZE + frame_len {
            return Ok(None);
        }
        let _ = buffers::buffer_split_to(&mut self.read_cipher, FRAME_LEN_SIZE);
        let ciphertext = buffers::buffer_split_to(&mut self.read_cipher, frame_len);
        proof {
            assert(buffers::buffer_seq(ciphertext) =~= first_message(wire));
            assert(self.inbound() =~= behind_frame(wire));
        }
        // Plaintext is at most `frame_len` (it's shorter by the 16-byte tag).
        let mut plaintext = buffers::zeros(frame_len);
        match open_message(
            &mut self.transport,
            buffers::buffer_slice(&ciphertext),
            &mut plaintext,
        ) {
            Ok(n) => {
                let ghost full = plaintext@;
                plaintext.truncate(n);
                assert(plaintext@ =~= full.take(n as int));
                Ok(Some(plaintext))
            },
            Err(_) => Err(FrameError::NotOpened),
        }
    }

    /// Decrypts frames until there is plaintext to hand out, or no complete frame is left.
    /// Says whether there is plaintext.
    pub fn fill(&mut self) -> (r: Result<bool, FrameError>)
        requires
            old(self).wf(),
        ensures
            final(self).wf(),
            final(self).outbound() == old(self).outbound(),
            out_secret(final(self).state()) == out_secret(old(self).state()),
            two_way(final(self).state()) == two_way(old(self).state()),
            out_count(final(self).state()) == out_count(old(self).state()),
            in_secret(final(self).state()) == in_secret(old(self).state()),
            r is Err ==> r == Err::<bool, FrameError>(FrameError::NotOpened),
            r is Err == (old(self).plain().len() == 0 && blocked(
                in_secret(old(self).state()),
                in_count(old(self).state()),
                old(self).inbound(),
            )),
            r matches Ok(any) ==> {
                let secret = in_secret(old(self).state());
                let before = reading(secret, in_count(old(self).state()), old(self).inbound());
                let after = reading(secret, in_count(final(self).state()), final(self).inbound());
                &&& any == (final(self).plain().len() > 0)
                &&& !any ==> !has_frame(final(self).inbound())
                &&& old(self).plain() + before.plain == final(self).plain() + after.plain
                &&& before.rest == after.rest
                &&& before.next == after.next
                &&& before.genuine == after.genuine
            },
    {
        let ghost was = *self;
        let ghost secret = in_secret(self.transport);
        let ghost before = reading(secret, in_count(self.transport), self.inbound());
        loop
            invariant
                was == *old(self),
                self.wf(),
                self.outbound() == was.outbound(),
                out_secret(self.transport) == out_secret(was.transport),
                two_way(self.transport) == two_way(was.transport),
                out_count(self.transport) == out_count(was.transport),
                in_secret(self.transport) == secret,
                secret == in_secret(was.transport),
                before == reading(secret, in_count(was.transport), was.inbound()),
                ({
                    let now = reading(secret, in_count(self.transport), self.inbound());
                    &&& was.plain() + before.plain == self.plain() + now.plain
                    &&& before.rest == now.rest
                    &&& before.next == now.next
                    &&& before.genuine == now.genuine
                }),
                ({
                    let first = was.plain().len() == 0 && blocked(
                        secret,
                        in_count(was.transport),
                        was.inbound(),
                    );
                    if self.plain().len() == 0 {
                        first == blocked(secret, in_count(self.transport), self.inbound())
                    } else {
                        !first
                    }
                }),
            decreases self.inbound().len(),
        {
            if buffers::buffer_len(&self.read_plain) > 0 {
                return Ok(true);
            }
            let ghost held = self.plain();
            let ghost now = reading(secret, in_count(self.transport), self.inbound());
            match self.try_decrypt_one_frame() {
                Ok(Some(plaintext)) => {
                    buffers::buffer_extend(&mut self.read_plain, plaintext.as_slice());
                    proof {
                        let then = reading(secret, in_count(self.transport), self.inbound());
                        assert(now.plain == plaintext@ + then.plain);
                        assert(held + (plaintext@ + then.plain) =~= (held + plaintext@)
                            + then.plain);
                    }
                },
                Ok(None) => {
                    return Ok(false);
                },
                Err(e) => {
                    return Err(e);
                },
            }
        }
    }

    /// Hands out at most `max` bytes of plaintext.
    pub fn take_plain(&mut self, max: usize) -> (r: Vec<u8>)
        requires
            old(self).wf(),
        ensures
            final(self).wf(),
            final(self).state() == old(self).state(),
            final(self).inbound() == old(self).inbound(),
            final(self).outbound() == old(self).outbound(),
            r@ + final(self).plain() == old(self).plain(),
            r@.len() == (if max < old(self).plain().len() {
                max as nat
            } else {
                old(self).plain().len()
            }),
    {
        let have: usize = buffers::buffer_len(&self.read_plain);
        let n: usize = if max < have {
            max
        } else {
            have
        };
        let ghost p = self.plain();
        let head = buffers::buffer_split_to(&mut self.read_plain, n);
        let out = vstd::slice::slice_to_vec(buffers::buffer_slice(&head));
        assert(p.take(n as int) + p.skip(n as int) =~= p);
        out
    }

    /// The other side closed the connection: that is an error where it did so mid-frame.
    pub fn end_of_stream(&self) -> (r: Result<(), FrameError>)
        ensures
            self.inbound().len() == 0 ==> r is Ok,
            self.inbound().len() > 0 ==> r == Err::<(), FrameError>(FrameError::UnexpectedEof),
    {
        if buffers::buffer_len(&self.read_cipher) == 0 {
            Ok(())
        } else {
            Err(FrameError::UnexpectedEof)
        }
    }
}

/// In front of any wire, `sent` reads as `data` and leaves the numbering at `next`.
spec fn reads_as(secret: Seq<u8>, n: nat, sent: Seq<u8>, data: Seq<u8>, next: nat) -> bool {
    forall|wire: Seq<u8>| #[trigger]
        reading(secret, n, sent + wire) == (Reading {
            plain: data + reading(secret, next, wire).plain,
            ..reading(secret, next, wire)
        })
}

proof fn lemma_prefix_start(secret: Seq<u8>, n: nat)
    ensures
        reads_as(secret, n, Seq::empty(), Seq::empty(), n),
        forall|b: Seq<u8>| #[trigger] b.take(0) == Seq::<u8>::empty(),
        frame_count(0) == 0,
{
    assert forall|wire: Seq<u8>| #[trigger]
        reading(secret, n, Seq::<u8>::empty() + wire) == (Reading {
            plain: Seq::<u8>::empty() + reading(secret, n, wire).plain,
            ..reading(secret, n, wire)
        }) by {
        assert(Seq::<u8>::empty() + wire =~= wire);
        assert(Seq::<u8>::empty() + reading(secret, n, wire).plain =~= reading(
            secret,
            n,
            wire,
        ).plain);
    }
    assert forall|b: Seq<u8>| #[trigger] b.take(0) == Seq::<u8>::empty() by {
        assert(b.take(0) =~= Seq::<u8>::empty());
    }
}

proof fn lemma_reads_on(
    secret: Seq<u8>,
    n: nat,
    sent: Seq<u8>,
    data: Seq<u8>,
    c: nat,
    m: Seq<u8>,
    payload: Seq<u8>,
)
    requires
        reads_as(secret, n, sent, data, c),
        m.len() <= 65535,
        opened(secret, c, m) == Some(payload),
    ensures
        reads_as(secret, n, sent + frame(m), data + payload, c + 1),
{
    assert forall|wire: Seq<u8>| #[trigger]
        reading(secret, n, (sent + frame(m)) + wire) == (Reading {
            plain: (data + payload) + reading(secret, c + 1, wire).plain,
            ..reading(secret, c + 1, wire)
        }) by {
        assert((sent + frame(m)) + wire =~= sent + (frame(m) + wire));
        lemma_frame_reads(secret, c, m, payload, wire);
        let tail = reading(secret, c + 1, wire).plain;
        assert(data + (payload + tail) =~= (data + payload) + tail);
    }
}

proof fn lemma_reads_all(secret: Seq<u8>, n: nat, sent: Seq<u8>, data: Seq<u8>, next: nat)
    requires
        reads_as(secret, n, sent, data, next),
    ensures
        reading(secret, n, sent) == (Reading { plain: data, rest: seq![], next, genuine: true }),
{
    let none = Seq::<u8>::empty();
    assert(reading(secret, n, sent + none) == (Reading {
        plain: data + reading(secret, next, none).plain,
        ..reading(secret, next, none)
    }));
    assert(sent + none =~= sent);
    assert(data + none =~= data);
}

/// More bytes take no fewer frames.
proof fn lemma_frames_left(a: nat, b: nat)
    requires
        a <= b,
    ensures
        frame_count(a) <= frame_count(b),
{
    vstd::arithmetic::div_mod::lemma_div_is_ordered(
        a + MAX_PAYLOAD - 1,
        b + MAX_PAYLOAD - 1,
        MAX_PAYLOAD as int,
    );
}

proof fn lemma_frame_count(at: nat, k: nat)
    requires
        at % (MAX_PAYLOAD as nat) == 0,
        1 <= k <= MAX_PAYLOAD,
    ensures
        frame_count(at + k) == frame_count(at) + 1,
        k == MAX_PAYLOAD ==> (at + k) % (MAX_PAYLOAD as nat) == 0,
{
}

} // verus!
