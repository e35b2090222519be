//! Content fingerprints for deduplication.
//!
//! A [`ContentId`] is computed deterministically from an image's raw bytes
//! with a fixed 128-bit multiply-and-xor fold and a fixed seed. Both the
//! fold and the seed are part of the format contract: changing either
//! changes every fingerprint and invalidates externally cached atlases.

use vstd::prelude::*;

verus! {

/// Seed folded into the initial fingerprint state. Part of the format
/// contract; stable across runs and releases.
pub const FINGERPRINT_SEED: u128 = 1312;

/// Initial state of the 128-bit fold (a Fowler/Noll/Vo offset basis).
pub const FINGERPRINT_OFFSET: u128 = 0x6c62272e07bb014262b821756295c58d;

/// Multiplier of the 128-bit fold (a Fowler/Noll/Vo prime).
pub const FINGERPRINT_PRIME: u128 = 0x0000000001000000000000000000013b;

/// State of the fold before any byte is mixed in.
pub open spec fn fingerprint_init() -> u128 {
    FINGERPRINT_OFFSET ^ FINGERPRINT_SEED
}

/// One step of the fold: mix a byte into the running state.
pub open spec fn fingerprint_step(state: u128, byte: u8) -> u128 {
    vstd::wrapping::u128_specs::wrapping_mul(state ^ (byte as u128), FINGERPRINT_PRIME)
}

/// The fingerprint of a byte sequence: the fold applied to every byte in
/// order. A pure function of the bytes, so byte-identical content always
/// yields the same fingerprint.
pub open spec fn fingerprint(data: Seq<u8>) -> u128
    decreases data.len(),
{
    if data.len() == 0 {
        fingerprint_init()
    } else {
        fingerprint_step(fingerprint(data.drop_last()), data.last())
    }
}

/// Deterministic fingerprint of an image's raw bytes: the sole
/// deduplication key of the atlas builder.
#[derive(Clone, Copy, Debug, PartialEq, Eq, Structural)]
pub struct ContentId {
    bits: u128,
}

/// The fingerprint of these bytes, as a [`ContentId`].
pub closed spec fn content_id_of(data: Seq<u8>) -> ContentId {
    ContentId { bits: fingerprint(data) }
}

impl View for ContentId {
    type V = u128;

    closed spec fn view(&self) -> u128 {
        self.bits
    }
}

impl ContentId {
    /// Fingerprint the given bytes.
    pub fn of(data: &[u8]) -> (id: ContentId)
        ensures
            id@ == fingerprint(data@),
            id == content_id_of(data@),
    {
        let mut state: u128 = FINGERPRINT_OFFSET ^ FINGERPRINT_SEED;
        let mut i: usize = 0;
        while i < data.len()
            invariant
                i <= data@.len(),
                state == fingerprint(data@.take(i as int)),
            decreases data@.len() - i,
        {
            let byte = data[i];
            state = (state ^ (byte as u128)).wrapping_mul(FINGERPRINT_PRIME);
            proof {
                let taken = data@.take(i + 1 as int);
                assert(taken.drop_last() =~= data@.take(i as int));
                assert(taken.last() == data@[i as int]);
            }
            i = i + 1;
        }
        proof {
            assert(data@.take(data@.len() as int) =~= data@);
        }
        ContentId { bits: state }
    }

    /// The raw 128 bits of the fingerprint.
    pub fn bits(&self) -> (b: u128)
        ensures
            b == self@,
    {
        self.bits
    }
}

/// Equal byte content always receives an equal fingerprint, in every run:
/// the fingerprint is a pure function of the bytes.
pub proof fn lemma_fingerprint_deterministic(a: Seq<u8>, b: Seq<u8>)
    requires
        a == b,
    ensures
        fingerprint(a) == fingerprint(b),
{
}

} // verus!
