//! What goes over the wire.

use snow::HandshakeState;
use vstd::prelude::*;

use crate::buffers;
use crate::codec;
use crate::digest;
use crate::fetching;
use crate::fetching::Unavailable;
use crate::handshake;
use crate::handshake::Handshake;
use crate::handshake::Turn;
use crate::noise_transport;
use crate::noise_transport::KeyError;
use crate::upload;

verus! {

// ── frames ───────────────────────────────────────────────────────────────────

/// A frame is the length of the message in two bytes, the high one first, and the message.
pub proof fn lemma_frame(message: Seq<u8>)
    requires
        message.len() <= 65535,
    ensures
        ({
            let f = noise_transport::frame(message);
            &&& f.len() == message.len() + 2
            &&& 256 * f[0] + f[1] == message.len()
            &&& f.skip(2) == message
        }),
{
    let f = noise_transport::frame(message);
    let n = message.len();
    assert(0 <= n / 256 <= 255 && 0 <= n % 256 <= 255);
    assert(f.skip(2) =~= message);
}

/// A frame is there once as many bytes have come as its first two announce; its message is what
/// follows them, and the next frame starts behind it.
pub proof fn lemma_wire(wire: Seq<u8>)
    ensures
        noise_transport::has_frame(wire) == (wire.len() >= 2 && wire.len() >= 2 + 256 * wire[0]
            + wire[1]),
        noise_transport::has_frame(wire) ==> ({
            let n = 256 * wire[0] + wire[1];
            &&& noise_transport::first_message(wire) == wire.subrange(2, 2 + n)
            &&& noise_transport::behind_frame(wire) == wire.subrange(2 + n, wire.len() as int)
        }),
{
}

/// What is framed is read back, and what follows it is left.
pub proof fn lemma_framed(message: Seq<u8>, rest: Seq<u8>)
    requires
        message.len() <= 65535,
    ensures
        noise_transport::has_frame(noise_transport::frame(message) + rest),
        noise_transport::first_message(noise_transport::frame(message) + rest) == message,
        noise_transport::behind_frame(noise_transport::frame(message) + rest) == rest,
{
    let f = noise_transport::frame(message);
    let wire = f + rest;
    lemma_frame(message);
    assert(wire[0] == f[0] && wire[1] == f[1]);
    assert(noise_transport::first_message(wire) =~= message) by {
        assert forall|i: int| 0 <= i < message.len() implies wire.subrange(
            2,
            2 + message.len() as int,
        )[i] == message[i] by {
            assert(wire[2 + i] == f[2 + i]);
            assert(f.skip(2)[i] == message[i]);
        }
    }
    assert(noise_transport::behind_frame(wire) =~= rest);
}

/// Data goes out in messages of as many bytes as a message of 65535 has room for beside its tag of
/// 16, in order; where a message cannot be sealed nothing more goes out.
pub proof fn lemma_sent(secret: Seq<u8>, n: nat, data: Seq<u8>)
    ensures
        data.len() == 0 ==> noise_transport::frames(secret, n, data).len() == 0
            && noise_transport::frames_sealed(secret, n, data) == 0 && noise_transport::sealable(
            secret,
            n,
            data,
        ),
        data.len() > 0 ==> ({
            let k: int = if data.len() < 65535 - 16 {
                data.len() as int
            } else {
                65535 - 16
            };
            match noise_transport::sealed(secret, n, data.take(k)) {
                Some(m) => {
                    &&& noise_transport::frames(secret, n, data) == noise_transport::frame(m)
                        + noise_transport::frames(secret, n + 1, data.skip(k))
                    &&& noise_transport::frames_sealed(secret, n, data) == 1
                        + noise_transport::frames_sealed(secret, n + 1, data.skip(k))
                    &&& noise_transport::sealable(secret, n, data) == noise_transport::sealable(
                        secret,
                        n + 1,
                        data.skip(k),
                    )
                },
                None => {
                    &&& noise_transport::frames(secret, n, data).len() == 0
                    &&& noise_transport::frames_sealed(secret, n, data) == 0
                    &&& !noise_transport::sealable(secret, n, data)
                },
            }
        }),
{
}

/// So many frames are enough for the data, and one fewer is not.
pub proof fn lemma_count(len: nat)
    ensures
        ({
            let c = noise_transport::frame_count(len);
            &&& len <= 65519 * c
            &&& len > 0 ==> 65519 * (c - 1) < len
            &&& len == 0 ==> c == 0
        }),
{
}

/// What comes in is opened frame by frame, in order; a frame that is not whole waits, and one that
/// does not open is not passed.
pub proof fn lemma_received(secret: Seq<u8>, n: nat, message: Seq<u8>, rest: Seq<u8>)
    requires
        message.len() <= 65535,
    ensures
        ({
            let wire = noise_transport::frame(message) + rest;
            let r = noise_transport::reading(secret, n, wire);
            match noise_transport::opened(secret, n, message) {
                Some(p) => {
                    let tail = noise_transport::reading(secret, n + 1, rest);
                    &&& r.plain == p + tail.plain
                    &&& r.rest == tail.rest
                    &&& r.next == tail.next
                    &&& r.genuine == tail.genuine
                    &&& noise_transport::blocked(secret, n, wire) == (p.len() == 0
                        && noise_transport::blocked(secret, n + 1, rest))
                },
                None => {
                    &&& r.plain.len() == 0
                    &&& r.rest == wire
                    &&& r.next == n
                    &&& !r.genuine
                    &&& noise_transport::blocked(secret, n, wire)
                },
            }
        }),
{
    lemma_framed(message, rest);
}

/// Bytes that are no whole frame are kept, and nothing is wrong with them.
pub proof fn lemma_waiting(secret: Seq<u8>, n: nat, wire: Seq<u8>)
    requires
        wire.len() < 2 || wire.len() < 2 + 256 * wire[0] + wire[1],
    ensures
        ({
            let r = noise_transport::reading(secret, n, wire);
            &&& r.plain.len() == 0
            &&& r.rest == wire
            &&& r.next == n
            &&& r.genuine
            &&& !noise_transport::blocked(secret, n, wire)
        }),
{
}

/// A key has 32 bytes.
pub proof fn lemma_key(decoded: Option<Seq<u8>>, r: Result<Vec<u8>, KeyError>)
    requires
        noise_transport::key_answer(decoded, r),
    ensures
        decoded is None ==> r == Err::<Vec<u8>, KeyError>(KeyError::NotBase64),
        decoded matches Some(k) ==> k.len() == 32 ==> r is Ok && r->Ok_0@ == k,
        decoded matches Some(k) ==> k.len() != 32 ==> (r matches Err(KeyError::WrongLength(n)) && n
            == k.len()),
{
}

/// The one who calls sends the first and the third message, the other one the second; then the
/// handshake is done.
pub proof fn lemma_turns(done: nat)
    ensures
        handshake::turn_of(true, 0) == Turn::Send,
        handshake::turn_of(true, 1) == Turn::Receive,
        handshake::turn_of(true, 2) == Turn::Send,
        handshake::turn_of(false, 0) == Turn::Receive,
        handshake::turn_of(false, 1) == Turn::Send,
        handshake::turn_of(false, 2) == Turn::Receive,
        done >= 3 ==> handshake::turn_of(true, done) == Turn::Done && handshake::turn_of(
            false,
            done,
        ) == Turn::Done,
{
}

// ── blocks ───────────────────────────────────────────────────────────────────

/// Why a block cannot be had: nobody holds it, none of those who do is known, or all of them were
/// asked in vain.
pub proof fn lemma_unavailable(holders: nat, sources: nat)
    ensures
        fetching::unavailable(0, sources) == Unavailable::Unknown,
        holders > 0 ==> fetching::unavailable(holders, 0) == Unavailable::HoldersDown,
        holders > 0 && sources > 0 ==> fetching::unavailable(holders, sources)
            == Unavailable::FetchFailed,
{
}

/// The entity tag of a body is its MD5 digest in hexadecimal, and its blocks are known by their
/// BLAKE3 digests.
pub proof fn lemma_tags(body: Seq<u8>, blocks: Seq<Seq<u8>>, i: int)
    requires
        0 <= i < blocks.len(),
    ensures
        upload::etag_of(body) == codec::hex_text(digest::md5_digest(body)),
        upload::digests(blocks).len() == blocks.len(),
        upload::digests(blocks)[i] == digest::blake3_digest(blocks[i]),
{
}

/// A block that is handed out carries the digest of its own bytes.
pub proof fn lemma_addressed(blocks: Seq<upload::Block>, i: int)
    requires
        0 <= i < blocks.len(),
        upload::addressed(blocks),
    ensures
        blocks[i].hash@ == digest::blake3_digest(buffers::bytes_seq(blocks[i].data)),
        upload::block_data(blocks).len() == blocks.len(),
        upload::block_data(blocks)[i] == buffers::bytes_seq(blocks[i].data),
{
}

/// The handshake that both sides speak, and where the secret of the cluster enters it.
pub proof fn lemma_protocol()
    ensures
        noise_transport::PATTERN@ == "Noise_XXpsk3_25519_ChaChaPoly_BLAKE2s"@,
        handshake::PSK_SLOT == 3,
        noise_transport::MAX_PAYLOAD + noise_transport::TAG_LEN == noise_transport::MAX_NOISE_MSG,
        noise_transport::MAX_NOISE_MSG == 256 * 256 - 1,
{
}

/// Whose turn it is follows from who called and from how many messages have gone.
pub proof fn lemma_turn_now(h: Handshake)
    ensures
        ({
            let gone = handshake::transcript(h.state()).len();
            let calls = handshake::initiates(h.state());
            &&& gone >= 3 ==> h.turn_now() == Turn::Done
            &&& gone == 0 || gone == 2 ==> h.turn_now() == if calls {
                Turn::Send
            } else {
                Turn::Receive
            }
            &&& gone == 1 ==> h.turn_now() == if calls {
                Turn::Receive
            } else {
                Turn::Send
            }
        }),
{
}

/// A handshake that goes on is between the same parties, in the same protocol.
pub proof fn lemma_parties(a: HandshakeState, b: HandshakeState)
    requires
        handshake::same_parties(a, b),
    ensures
        handshake::protocol(a) == handshake::protocol(b),
        handshake::static_key(a) == handshake::static_key(b),
        handshake::preshared(a) == handshake::preshared(b),
        handshake::initiates(a) == handshake::initiates(b),
{
}

} // verus!
