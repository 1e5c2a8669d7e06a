//! Variable-length unsigned integers: little-endian groups of seven bits, the
//! high bit of each byte telling whether another group follows.

use vstd::prelude::*;

verus! {

/// A byte at or above this value announces that another group follows.
pub const CONTINUE_BIT: u8 = 128;

/// The longest encoding that is ever read: ten groups cover 64 bits.
pub const MAX_ENCODED_LEN: usize = 10;

/// How many bytes of `bytes` one encoded integer occupies when at most `max`
/// groups are read: up to and including the first byte without the
/// continuation bit, or all that is there if no such byte comes in time.
pub open spec fn encoded_span(bytes: Seq<u8>, max: nat) -> nat
    decreases max,
{
    if max == 0 || bytes.len() == 0 {
        0
    } else if bytes[0] < CONTINUE_BIT {
        1
    } else {
        1 + encoded_span(bytes.skip(1), (max - 1) as nat)
    }
}

/// The number that the groups spell, least significant group first, before
/// it is cut down to 64 bits.
pub open spec fn group_value(bytes: Seq<u8>, max: nat) -> nat
    decreases max,
{
    if max == 0 || bytes.len() == 0 {
        0
    } else if bytes[0] < CONTINUE_BIT {
        bytes[0] as nat
    } else {
        (bytes[0] - CONTINUE_BIT) as nat + 128 * group_value(bytes.skip(1), (max - 1) as nat)
    }
}

/// Number of bytes that decoding consumes from `bytes`.
pub open spec fn decoded_len(bytes: Seq<u8>) -> nat {
    encoded_span(bytes, MAX_ENCODED_LEN as nat)
}

/// The value that decoding yields from `bytes`.
pub open spec fn decoded_value(bytes: Seq<u8>) -> nat {
    group_value(bytes, MAX_ENCODED_LEN as nat) % 0x1_0000_0000_0000_0000
}

/// 128 to the power `k`.
pub open spec fn pow128(k: nat) -> nat
    decreases k,
{
    if k == 0 {
        1
    } else {
        128 * pow128((k - 1) as nat)
    }
}

/// An encoded integer never reaches past the bytes given nor past the cap.
pub proof fn lemma_span_bounds(bytes: Seq<u8>, max: nat)
    ensures
        encoded_span(bytes, max) <= bytes.len(),
        encoded_span(bytes, max) <= max,
        (bytes.len() > 0 && max > 0) ==> encoded_span(bytes, max) >= 1,
    decreases max,
{
    if max != 0 && bytes.len() != 0 && bytes[0] >= CONTINUE_BIT {
        lemma_span_bounds(bytes.skip(1), (max - 1) as nat);
    }
}

/// `max` groups spell a number below 128 to the power `max`.
pub proof fn lemma_group_value_bound(bytes: Seq<u8>, max: nat)
    ensures
        group_value(bytes, max) < pow128(max),
    decreases max,
{
    if max != 0 {
        lemma_group_value_bound(bytes.skip(1), (max - 1) as nat);
    }
}

/// Powers of 128 grow with the exponent.
pub proof fn lemma_pow128_monotonic(a: nat, b: nat)
    requires
        a <= b,
    ensures
        pow128(a) <= pow128(b),
        pow128(a) >= 1,
    decreases b,
{
    if a < b {
        lemma_pow128_monotonic(a, (b - 1) as nat);
    } else if a > 0 {
        lemma_pow128_monotonic((a - 1) as nat, (a - 1) as nat);
    }
}

/// The bytes that spell `value`: seven bits to a byte, least significant
/// group first, the continuation bit on every byte but the last.
pub open spec fn encoding(value: nat) -> Seq<u8>
    decreases value,
{
    if value < 128 {
        seq![value as u8]
    } else {
        seq![(value % 128 + 128) as u8] + encoding(value / 128)
    }
}

/// A value below 128 to the power `k` is spelled in at most `k` bytes.
pub proof fn lemma_encoding_len(value: nat, k: nat)
    requires
        k >= 1,
        value < pow128(k),
    ensures
        1 <= encoding(value).len() <= k,
    decreases k,
{
    reveal_with_fuel(pow128, 2);
    if value >= 128 {
        lemma_encoding_len(value / 128, (k - 1) as nat);
    }
}

/// Reading the groups of an encoding gives the value back and stops at the
/// end of the encoding, whatever follows it, as long as the cap on the
/// number of groups admits the whole encoding.
pub proof fn lemma_groups_of_encoding(value: nat, rest: Seq<u8>, max: nat)
    requires
        encoding(value).len() <= max,
    ensures
        encoded_span(encoding(value) + rest, max) == encoding(value).len(),
        group_value(encoding(value) + rest, max) == value,
    decreases value,
{
    let bytes = encoding(value) + rest;
    if value < 128 {
        assert(bytes[0] == value as u8);
    } else {
        assert(bytes[0] == (value % 128 + 128) as u8);
        assert(bytes.skip(1) =~= encoding(value / 128) + rest);
        lemma_groups_of_encoding(value / 128, rest, (max - 1) as nat);
    }
}

/// Every 64-bit value is spelled in at most ten bytes, and decoding its
/// encoding yields the value and consumes exactly the encoding, whatever
/// bytes follow.
pub proof fn lemma_decoding_inverts_encoding(value: u64, rest: Seq<u8>)
    ensures
        1 <= encoding(value as nat).len() <= MAX_ENCODED_LEN,
        decoded_len(encoding(value as nat) + rest) == encoding(value as nat).len(),
        decoded_value(encoding(value as nat) + rest) == value,
{
    assert(pow128(10) == 0x40_0000_0000_0000_0000) by {
        reveal_with_fuel(pow128, 11);
    }
    lemma_encoding_len(value as nat, 10);
    lemma_groups_of_encoding(value as nat, rest, 10);
}

/// Decodes one integer from the front of `buf`. Returns the number of bytes
/// it occupies and its value. An empty slice decodes to zero in zero bytes;
/// groups beyond the tenth are not read, and bits beyond the 64th are dropped.
pub fn deserialize_read(buf: &[u8]) -> (r: (usize, u64))
    ensures
        r.0 == decoded_len(buf@),
        r.1 == decoded_value(buf@),
        r.0 <= buf@.len(),
        r.0 <= MAX_ENCODED_LEN,
{
    proof {
        lemma_span_bounds(buf@, MAX_ENCODED_LEN as nat);
        assert(buf@.skip(0) =~= buf@);
    }
    // Find where the encoding ends.
    let mut consumed: usize = 0;
    let mut open: bool = true;
    while open && consumed < buf.len() && consumed < MAX_ENCODED_LEN
        invariant
            consumed <= buf@.len(),
            consumed <= MAX_ENCODED_LEN,
            open ==> decoded_len(buf@) == consumed + encoded_span(
                buf@.skip(consumed as int),
                (MAX_ENCODED_LEN - consumed) as nat,
            ),
            !open ==> decoded_len(buf@) == consumed && consumed >= 1,
            forall|k: int| 0 <= k < consumed - 1 ==> buf@[k] >= CONTINUE_BIT,
            consumed >= 1 ==> (open <==> buf@[consumed - 1] >= CONTINUE_BIT),
        decreases (if open { 1int } else { 0int }) + buf@.len() - consumed,
    {
        let b: u8 = buf[consumed];
        proof {
            let rest = buf@.skip(consumed as int);
            assert(rest[0] == b);
            assert(rest.skip(1) =~= buf@.skip(consumed + 1));
        }
        if b < CONTINUE_BIT {
            open = false;
        }
        consumed = consumed + 1;
    }
    // Fold the groups from the most significant one down.
    let mut i: usize = consumed;
    let mut acc: u128 = 0;
    proof {
        reveal_with_fuel(pow128, 11);
        assert(pow128(10) == 0x40_0000_0000_0000_0000);
    }
    while i > 0
        invariant
            i <= consumed <= buf@.len(),
            consumed <= MAX_ENCODED_LEN,
            pow128(10) == 0x40_0000_0000_0000_0000,
            forall|k: int| 0 <= k < consumed - 1 ==> buf@[k] >= CONTINUE_BIT,
            consumed >= 1 ==> (open <==> buf@[consumed - 1] >= CONTINUE_BIT),
            open ==> consumed == buf@.len() || consumed == MAX_ENCODED_LEN,
            i == consumed ==> acc == 0,
            i < consumed ==> acc == group_value(
                buf@.skip(i as int),
                (MAX_ENCODED_LEN - i) as nat,
            ),
        decreases i,
    {
        let b: u8 = buf[i - 1];
        proof {
            let here = buf@.skip(i - 1);
            assert(here[0] == b);
            assert(here.skip(1) =~= buf@.skip(i as int));
            lemma_group_value_bound(buf@.skip(i as int), (MAX_ENCODED_LEN - i) as nat);
            lemma_pow128_monotonic((MAX_ENCODED_LEN - i) as nat, 10);
        }
        if b < CONTINUE_BIT {
            acc = b as u128;
        } else {
            acc = (b - CONTINUE_BIT) as u128 + 128 * acc;
        }
        i = i - 1;
    }
    proof {
        lemma_group_value_bound(buf@, MAX_ENCODED_LEN as nat);
        assert(buf@.skip(0) =~= buf@);
    }
    (consumed, (acc % 0x1_0000_0000_0000_0000u128) as u64)
}

} // verus!
