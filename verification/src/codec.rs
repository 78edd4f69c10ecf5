//! The wire format of messages.
//!
//! A message is a string of bytes. On the wire it stands behind a header that gives its length,
//! which is what `bincode` makes of a byte vector. `bincode` is reached through the two wrappers
//! of this module; what they claim of it is not proved here.

use bincode::Options;
use vstd::prelude::*;

verus! {

/// The number of bytes that a message takes on the wire at most.
pub const MESSAGE_LIMIT: u64 = 16_384;

/// What `bincode` reports when it fails.
#[verifier::external_type_specification]
#[verifier::external_body]
pub struct ExErrorKind(bincode::ErrorKind);

/// The number that a string of bytes stands for, the least significant byte first.
pub open spec fn le_value(bytes: Seq<u8>) -> nat
    decreases bytes.len(),
{
    if bytes.len() == 0 {
        0
    } else {
        bytes[0] as nat + 256 * le_value(bytes.drop_first())
    }
}

/// The `width` bytes that stand for `n`, the least significant byte first.
pub open spec fn le_bytes(n: nat, width: nat) -> Seq<u8>
    decreases width,
{
    if width == 0 {
        Seq::empty()
    } else {
        seq![(n % 256) as u8] + le_bytes(n / 256, (width - 1) as nat)
    }
}

/// The header that is written before a message of `n` bytes: one byte for a short message, else
/// a marker and the length in two, four or eight bytes.
pub open spec fn header(n: nat) -> Seq<u8> {
    if n <= 250 {
        seq![n as u8]
    } else if n <= u16::MAX {
        seq![251u8] + le_bytes(n, 2)
    } else if n <= u32::MAX {
        seq![252u8] + le_bytes(n, 4)
    } else {
        seq![253u8] + le_bytes(n, 8)
    }
}

/// Whether `head` can be read as the header of a message of `n` bytes. A length may be read from
/// a wider header than the one that is written for it.
pub open spec fn is_header(head: Seq<u8>, n: nat) -> bool {
    ||| head.len() == 1 && head[0] <= 250 && n == head[0]
    ||| head.len() == 3 && head[0] == 251 && n == le_value(head.drop_first())
    ||| head.len() == 5 && head[0] == 252 && n == le_value(head.drop_first())
    ||| head.len() == 9 && head[0] == 253 && n == le_value(head.drop_first())
}

/// A message as it is written on the wire.
pub open spec fn wire(message: Seq<u8>) -> Seq<u8> {
    header(message.len()) + message
}

/// Whether the bytes on the wire are read as the message: a header, then the message that it
/// announces, then nothing.
pub open spec fn reads_as(bytes: Seq<u8>, message: Seq<u8>) -> bool {
    exists|head: Seq<u8>| is_header(head, message.len()) && bytes == #[trigger] (head + message)
}

/// Whether the message fits the wire.
pub open spec fn encodable(message: Seq<u8>) -> bool {
    wire(message).len() <= MESSAGE_LIMIT
}

/// The message that the bytes on the wire are read as, if there is one.
pub open spec fn read(bytes: Seq<u8>) -> Option<Seq<u8>> {
    if exists|message: Seq<u8>| reads_as(bytes, message) {
        Some(choose|message: Seq<u8>| reads_as(bytes, message))
    } else {
        None
    }
}

/// Calls `bincode::Options::serialize` on `DefaultOptions` with a limit: a byte vector becomes
/// its length, as a variable-width little-endian integer, and its bytes; it fails exactly when
/// that takes more bytes than the limit.
#[verifier::external_body]
fn bincode_serialize(message: &Vec<u8>, limit: u64) -> (res: Result<
    Vec<u8>,
    Box<bincode::ErrorKind>,
>)
    ensures
        res is Ok <==> wire(message@).len() <= limit,
        res matches Ok(bytes) ==> bytes@ == wire(message@),
{
    bincode::DefaultOptions::new().with_limit(limit).serialize(message)
}

/// Calls `bincode::Options::deserialize` on `DefaultOptions` with a limit: reads a length and
/// that many bytes, and fails when the slice is shorter or longer than that. The limit has no
/// bearing on a slice.
#[verifier::external_body]
fn bincode_deserialize(bytes: &Vec<u8>, limit: u64) -> (res: Result<
    Vec<u8>,
    Box<bincode::ErrorKind>,
>)
    ensures
        match res {
            Ok(message) => reads_as(bytes@, message@),
            Err(_) => forall|message: Seq<u8>| !reads_as(bytes@, message),
        },
{
    bincode::DefaultOptions::new().with_limit(limit).deserialize(bytes)
}

/// A message that has no wire format within [`MESSAGE_LIMIT`].
#[derive(Clone, Copy, Debug, PartialEq, Eq, Structural)]
pub struct EncodeError;

/// Writes a message in its wire format; fails when it takes more than [`MESSAGE_LIMIT`] bytes.
pub fn encode(message: &Vec<u8>) -> (res: Result<Vec<u8>, EncodeError>)
    ensures
        res is Ok <==> encodable(message@),
        res matches Ok(bytes) ==> bytes@ == wire(message@),
{
    match bincode_serialize(message, MESSAGE_LIMIT) {
        Ok(bytes) => Ok(bytes),
        Err(_) => Err(EncodeError),
    }
}

/// Reads a message from its wire format, if the bytes are one.
pub fn decode(bytes: &Vec<u8>) -> (res: Option<Vec<u8>>)
    ensures
        match res {
            Some(message) => read(bytes@) == Some(message@),
            None => read(bytes@) is None,
        },
{
    match bincode_deserialize(bytes, MESSAGE_LIMIT) {
        Ok(message) => {
            proof {
                lemma_reads_once(bytes@, message@, read(bytes@)->0);
            }
            Some(message)
        },
        Err(_) => None,
    }
}

/// Bytes are read as one message at most.
pub proof fn lemma_reads_once(bytes: Seq<u8>, first: Seq<u8>, second: Seq<u8>)
    requires
        reads_as(bytes, first),
        reads_as(bytes, second),
    ensures
        first == second,
{
    let head1 = choose|head: Seq<u8>|
        is_header(head, first.len()) && bytes == #[trigger] (head + first);
    let head2 = choose|head: Seq<u8>|
        is_header(head, second.len()) && bytes == #[trigger] (head + second);
    assert(bytes[0] == head1[0] && bytes[0] == head2[0]);
    assert(head1.len() == head2.len());
    assert(first =~= bytes.skip(head1.len() as int));
    assert(second =~= bytes.skip(head2.len() as int));
}

/// The bytes that stand for a number that fits stand for that number.
proof fn lemma_le_round_trip(n: nat, width: nat)
    requires
        n < vstd::arithmetic::power2::pow2(8 * width),
    ensures
        le_bytes(n, width).len() == width,
        le_value(le_bytes(n, width)) == n,
    decreases width,
{
    if width == 0 {
        vstd::arithmetic::power2::lemma2_to64();
    } else {
        let rest = (width - 1) as nat;
        vstd::arithmetic::power2::lemma_pow2_adds(8, 8 * rest);
        vstd::arithmetic::power2::lemma2_to64();
        let p = vstd::arithmetic::power2::pow2(8 * rest);
        assert(8 + 8 * rest == 8 * width);
        assert(n < 256 * p);
        assert(n / 256 < p) by (nonlinear_arith)
            requires
                n < 256 * p,
        ;
        lemma_le_round_trip(n / 256, rest);
        assert(le_bytes(n, width).drop_first() =~= le_bytes(n / 256, rest));
    }
}

/// What is written for a message is read as that message.
pub proof fn law_wire_is_read_back(message: Seq<u8>)
    requires
        message.len() <= u64::MAX,
    ensures
        reads_as(wire(message), message),
        read(wire(message)) == Some(message),
{
    let n = message.len();
    vstd::arithmetic::power2::lemma2_to64();
    if n <= 250 {
    } else if n <= u16::MAX {
        lemma_le_round_trip(n, 2);
        assert(header(n).drop_first() =~= le_bytes(n, 2));
    } else if n <= u32::MAX {
        lemma_le_round_trip(n, 4);
        assert(header(n).drop_first() =~= le_bytes(n, 4));
    } else {
        lemma_le_round_trip(n, 8);
        assert(header(n).drop_first() =~= le_bytes(n, 8));
    }
    assert(is_header(header(n), n));
    assert(reads_as(wire(message), message));
    lemma_reads_once(wire(message), message, read(wire(message))->0);
}

/// Bytes are read as a message exactly when they are a header that announces its length, followed
/// by the message and nothing else; the header may be longer than it need be.
pub proof fn law_bytes_are_read_as_what_they_hold(bytes: Seq<u8>, message: Seq<u8>)
    ensures
        read(bytes) == Some(message) <==> reads_as(bytes, message),
        read(bytes) is None <==> forall|other: Seq<u8>| !(#[trigger] reads_as(bytes, other)),
{
    if reads_as(bytes, message) {
        lemma_reads_once(bytes, message, read(bytes)->0);
    }
}

/// A message fits the wire exactly when it has at most 16381 bytes.
pub proof fn law_largest_message(message: Seq<u8>)
    ensures
        encodable(message) <==> message.len() <= 16_381,
        MESSAGE_LIMIT == 16_384,
{
    law_size_limit(message);
}

/// A message fits the wire exactly when it is not longer than the limit without a header of
/// three bytes.
pub proof fn law_size_limit(message: Seq<u8>)
    ensures
        encodable(message) <==> message.len() + 3 <= MESSAGE_LIMIT,
{
    let n = message.len();
    reveal_with_fuel(le_bytes, 9);
    assert(le_bytes(n, 2).len() == 2);
    assert(le_bytes(n, 4).len() == 4);
    assert(le_bytes(n, 8).len() == 8);
}

} // verus!
