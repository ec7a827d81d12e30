//! The handshake that opens a Noise session.
//!
//! Three messages go back and forth, the first one from the initiator. A handshake says whose
//! turn it is, and makes or takes in one message at a time; the messages travel outside.

use snow::{HandshakeState, TransportState};
use vstd::prelude::*;

use crate::buffers;
use crate::noise_transport;
use crate::noise_transport::{encode_frame, FrameCodec, MAX_NOISE_MSG, PATTERN};

verus! {

/// The slot of the pre-shared key: it is mixed in with the third message.
pub const PSK_SLOT: u8 = 3;

// ── the state of a handshake ─────────────────────────────────────────────────

/// The handshake phase of a Noise session.
#[verifier::external_type_specification]
#[verifier::external_body]
pub struct ExHandshakeState(snow::HandshakeState);

/// The protocol name of a handshake.
pub uninterp spec fn protocol(h: HandshakeState) -> Seq<char>;

/// The private key that a handshake proves to own.
pub uninterp spec fn static_key(h: HandshakeState) -> Seq<u8>;

/// The pre-shared key of a handshake, and its slot.
pub uninterp spec fn preshared(h: HandshakeState) -> (u8, Seq<u8>);

/// This side sends the first message.
pub uninterp spec fn initiates(h: HandshakeState) -> bool;

/// The other side can have sent `message` as the next one.
pub uninterp spec fn accepts(h: HandshakeState, message: Seq<u8>) -> bool;

/// The messages that were sent and received.
pub uninterp spec fn transcript(h: HandshakeState) -> Seq<Seq<u8>>;

/// The secret that this side will seal messages with.
pub uninterp spec fn sending_secret(h: HandshakeState) -> Seq<u8>;

/// The secret that this side will open messages with.
pub uninterp spec fn receiving_secret(h: HandshakeState) -> Seq<u8>;

/// Neither the protocol, nor the keys, nor the side of a handshake changed.
pub open spec fn same_parties(a: HandshakeState, b: HandshakeState) -> bool {
    &&& protocol(a) == protocol(b)
    &&& static_key(a) == static_key(b)
    &&& preshared(a) == preshared(b)
    &&& initiates(a) == initiates(b)
}

/// `Builder::build_initiator` for a protocol name, with a private key and a pre-shared key: a
/// handshake that has not begun. For the protocol of this cluster it succeeds wherever there is
/// such a slot. A private key that is longer than 32 bytes panics, and a shorter one would be
/// filled up with zeros.
#[verifier::external_body]
fn build_initiator(pattern: &str, private_key: &[u8], slot: u8, psk: &[u8; 32]) -> (r: Result<
    HandshakeState,
    snow::Error,
>)
    requires
        private_key@.len() == 32,
    ensures
        pattern@ == PATTERN@ && slot < 10 ==> r is Ok,
        r matches Ok(h) ==> {
            &&& protocol(h) == pattern@
            &&& static_key(h) == private_key@
            &&& preshared(h) == (slot, psk@)
            &&& initiates(h)
            &&& transcript(h) == Seq::<Seq<u8>>::empty()
        },
{
    snow::Builder::new(pattern.parse()?)
        .local_private_key(private_key)?
        .psk(slot, psk)?
        .build_initiator()
}

/// `Builder::build_responder`: the same for the side that receives the first message.
#[verifier::external_body]
fn build_responder(pattern: &str, private_key: &[u8], slot: u8, psk: &[u8; 32]) -> (r: Result<
    HandshakeState,
    snow::Error,
>)
    requires
        private_key@.len() == 32,
    ensures
        pattern@ == PATTERN@ && slot < 10 ==> r is Ok,
        r matches Ok(h) ==> {
            &&& protocol(h) == pattern@
            &&& static_key(h) == private_key@
            &&& preshared(h) == (slot, psk@)
            &&& !initiates(h)
            &&& transcript(h) == Seq::<Seq<u8>>::empty()
        },
{
    snow::Builder::new(pattern.parse()?)
        .local_private_key(private_key)?
        .psk(slot, psk)?
        .build_responder()
}

/// `HandshakeState::write_message` without a payload: writes the next message to the start of
/// `out`. It fails where it is not this side's turn, and then nothing was sent. Which bytes a
/// message holds is left to chance: it carries a fresh key.
#[verifier::external_body]
fn write_handshake(h: &mut HandshakeState, out: &mut Vec<u8>) -> (r: Result<usize, snow::Error>)
    requires
        old(out)@.len() >= 65535,
    ensures
        final(out)@.len() == old(out)@.len(),
        same_parties(*final(h), *old(h)),
        match r {
            Ok(n) => {
                &&& n <= 65535
                &&& (transcript(*old(h)).len() % 2 == 0) == initiates(*old(h))
                &&& transcript(*final(h)) == transcript(*old(h)).push(final(out)@.take(n as int))
            },
            Err(_) => transcript(*final(h)) == transcript(*old(h)),
        },
{
    h.write_message(&[], out)
}

/// `HandshakeState::read_message`: takes in the next message, and writes its payload to the
/// start of `out`. Whether it does rests on the handshake so far and on the message. It fails
/// where it is this side's turn to write or the message is too long, and then nothing was
/// received.
#[verifier::external_body]
fn read_handshake(h: &mut HandshakeState, message: &[u8], out: &mut Vec<u8>) -> (r: Result<
    usize,
    snow::Error,
>)
    requires
        old(out)@.len() >= 65535,
    ensures
        final(out)@.len() == old(out)@.len(),
        same_parties(*final(h), *old(h)),
        r is Ok == accepts(*old(h), message@),
        match r {
            Ok(n) => {
                &&& n <= message@.len() <= 65535
                &&& (transcript(*old(h)).len() % 2 == 0) != initiates(*old(h))
                &&& transcript(*final(h)) == transcript(*old(h)).push(message@)
            },
            Err(_) => transcript(*final(h)) == transcript(*old(h)),
        },
{
    h.read_message(message, out)
}

/// `HandshakeState::into_transport_mode`: the transport of a handshake that is finished, which
/// has sealed and opened no message. A handshake of the `XX` pattern is finished after three
/// messages, and opens a session in which both sides send. It is not stated that the two sides of one handshake come to the same secrets.
#[verifier::external_body]
fn into_transport(h: HandshakeState) -> (r: Result<TransportState, snow::Error>)
    ensures
        protocol(h) == PATTERN@ ==> r is Ok == (transcript(h).len() == 3),
        r matches Ok(t) ==> {
            &&& protocol(h) == PATTERN@ ==> noise_transport::two_way(t)
            &&& noise_transport::out_secret(t) == sending_secret(h)
            &&& noise_transport::in_secret(t) == receiving_secret(h)
            &&& noise_transport::out_count(t) == 0
            &&& noise_transport::in_count(t) == 0
        },
{
    h.into_transport_mode()
}

// ── turns ────────────────────────────────────────────────────────────────────

/// What a side has to do next.
#[derive(Clone, Copy, PartialEq, Eq, Structural, Debug)]
pub enum Turn {
    Send,
    Receive,
    Done,
}

/// The turn of a side when `done` messages have gone.
pub open spec fn turn_of(initiator: bool, done: nat) -> Turn {
    if done >= 3 {
        Turn::Done
    } else if (done % 2 == 0) == initiator {
        Turn::Send
    } else {
        Turn::Receive
    }
}

/// The two sides of a handshake never wait for each other: one receives what the other sends,
/// and both are done at once.
pub proof fn lemma_turns_match(done: nat)
    ensures
        (turn_of(true, done) is Send) == (turn_of(false, done) is Receive),
        (turn_of(true, done) is Receive) == (turn_of(false, done) is Send),
        (turn_of(true, done) is Done) == (turn_of(false, done) is Done),
        turn_of(true, 0) is Send,
{
}

/// Why a handshake broke off.
#[derive(Clone, Copy, PartialEq, Eq, Structural, Debug)]
pub enum HandshakeError {
    NotStarted,
    NotSent,
    NotReceived,
    NotFinished,
}

/// A handshake in progress.
pub struct Handshake {
    state: HandshakeState,
    initiator: bool,
    done: u8,
    buffer: Vec<u8>,
}

impl Handshake {
    /// The state of the handshake.
    pub closed spec fn state(self) -> HandshakeState {
        self.state
    }

    pub closed spec fn wf(self) -> bool {
        &&& self.buffer@.len() == MAX_NOISE_MSG
        &&& self.initiator == initiates(self.state)
        &&& self.done == transcript(self.state).len()
        &&& self.done <= 3
        &&& protocol(self.state) == PATTERN@
    }

    /// The turn of this side.
    pub open spec fn turn_now(self) -> Turn {
        turn_of(initiates(self.state()), transcript(self.state()).len())
    }

    /// Begins a handshake, as the side that sends the first message or as the other.
    pub fn begin(initiator: bool, private_key: &[u8], psk: &[u8; 32]) -> (r: Result<
        Handshake,
        HandshakeError,
    >)
        requires
            private_key@.len() == 32,
        ensures
            r matches Ok(h) && {
                &&& h.wf()
                &&& protocol(h.state()) == PATTERN@
                &&& static_key(h.state()) == private_key@
                &&& preshared(h.state()) == (PSK_SLOT, psk@)
                &&& initiates(h.state()) == initiator
                &&& transcript(h.state()) == Seq::<Seq<u8>>::empty()
            },
    {
        let built = if initiator {
            build_initiator(PATTERN, private_key, PSK_SLOT, psk)
        } else {
            build_responder(PATTERN, private_key, PSK_SLOT, psk)
        };
        match built {
            Ok(state) => Ok(
                Handshake { state, initiator, done: 0, buffer: buffers::zeros(MAX_NOISE_MSG) },
            ),
            Err(_) => Err(HandshakeError::NotStarted),
        }
    }

    /// What this side has to do next.
    pub fn turn(&self) -> (r: Turn)
        requires
            self.wf(),
        ensures
            r == self.turn_now(),
    {
        if self.done >= 3 {
            Turn::Done
        } else if (self.done % 2 == 0) == self.initiator {
            Turn::Send
        } else {
            Turn::Receive
        }
    }

    /// Makes the next message, with its length in front.
    pub fn send(&mut self) -> (r: Result<Vec<u8>, HandshakeError>)
        requires
            old(self).wf(),
        ensures
            final(self).wf(),
            same_parties(final(self).state(), old(self).state()),
            !(old(self).turn_now() is Send) ==> r is Err,
            match r {
                Ok(wire) => exists|message: Seq<u8>|
                    #![trigger noise_transport::frame(message)]
                    wire@ == noise_transport::frame(message) && transcript(final(self).state())
                        == transcript(old(self).state()).push(message),
                Err(e) => e == HandshakeError::NotSent && transcript(final(self).state())
                    == transcript(old(self).state()),
            },
    {
        if self.turn() != Turn::Send {
            return Err(HandshakeError::NotSent);
        }
        let n: usize = match write_handshake(&mut self.state, &mut self.buffer) {
            Ok(n) => n,
            Err(_) => {
                return Err(HandshakeError::NotSent);
            },
        };
        self.done = self.done + 1;
        let message = vstd::slice::slice_subrange(self.buffer.as_slice(), 0, n);
        assert(message@ =~= self.buffer@.take(n as int));
        match encode_frame(message) {
            Ok(wire) => {
                assert(wire@ == noise_transport::frame(message@));
                Ok(wire)
            },
            Err(_) => Err(HandshakeError::NotSent),
        }
    }

    /// Takes in the next message.
    pub fn receive(&mut self, message: &[u8]) -> (r: Result<(), HandshakeError>)
        requires
            old(self).wf(),
        ensures
            final(self).wf(),
            same_parties(final(self).state(), old(self).state()),
            r is Ok == (old(self).turn_now() is Receive && accepts(
                old(self).state(),
                message@,
            )),
            match r {
                Ok(()) => transcript(final(self).state()) == transcript(old(self).state()).push(
                    message@,
                ),
                Err(e) => e == HandshakeError::NotReceived && transcript(final(self).state())
                    == transcript(old(self).state()),
            },
    {
        if self.turn() != Turn::Receive {
            return Err(HandshakeError::NotReceived);
        }
        match read_handshake(&mut self.state, message, &mut self.buffer) {
            Ok(_) => {
                self.done = self.done + 1;
                Ok(())
            },
            Err(_) => Err(HandshakeError::NotReceived),
        }
    }

    /// The codec of the session, where all messages have gone.
    pub fn finish(self) -> (r: Result<FrameCodec, HandshakeError>)
        requires
            self.wf(),
        ensures
            r is Ok == (self.turn_now() is Done),
            match r {
                Ok(codec) => {
                    &&& codec.wf()
                    &&& codec.plain() == Seq::<u8>::empty()
                    &&& codec.inbound() == Seq::<u8>::empty()
                    &&& codec.outbound() == Seq::<u8>::empty()
                    &&& noise_transport::two_way(codec.state())
                    &&& noise_transport::out_secret(codec.state()) == sending_secret(self.state())
                    &&& noise_transport::in_secret(codec.state()) == receiving_secret(self.state())
                    &&& noise_transport::out_count(codec.state()) == 0
                    &&& noise_transport::in_count(codec.state()) == 0
                },
                Err(e) => e == HandshakeError::NotFinished,
            },
    {
        match into_transport(self.state) {
            Ok(transport) => Ok(FrameCodec::from_transport(transport)),
            Err(_) => Err(HandshakeError::NotFinished),
        }
    }
}

} // verus!
