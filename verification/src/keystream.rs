//! Key material and the byte stream that is drawn from it.

use rand_core::RngCore;
use vstd::bytes::{
    spec_u32_from_le_bytes, spec_u64_from_le_bytes, u32_from_le_bytes, u64_from_le_bytes,
};
use vstd::prelude::*;
use zeroize::Zeroize;

verus! {

/// `rand_core::Error`, which a stream of this crate never returns.
#[verifier::external_type_specification]
#[verifier::external_body]
pub struct ExRandError(rand_core::Error);

/// The bytes from `position` up to `position + len` of the extended output
/// that BLAKE3 gives for the input `key`.
pub uninterp spec fn xof_bytes(key: Seq<u8>, position: nat, len: nat) -> Seq<u8>;

/// What a read at `position` leaves in a buffer that held `before`: bytes of
/// the extended output, or, where the output ends before the buffer is full,
/// the buffer as it was.
pub open spec fn stream_read(key: Seq<u8>, position: nat, before: Seq<u8>) -> Seq<u8> {
    if position + before.len() <= u64::MAX {
        xof_bytes(key, position, before.len())
    } else {
        before
    }
}

/// Where a stream stands after a read of `len` bytes at `position`.
pub open spec fn stream_advance(position: nat, len: nat) -> nat {
    if position + len <= u64::MAX {
        position + len
    } else {
        position
    }
}

/// BLAKE3 as an extendable-output function: `blake3::Hasher::new`, `update`
/// with the key, `finalize_xof`, then `OutputReader::set_position` and
/// `OutputReader::fill`. The buffer is filled with the bytes of the output
/// that begin at `position`.
#[verifier::external_body]
fn xof_fill(key: &[u8; 32], position: u64, out: &mut [u8])
    requires
        position + old(out)@.len() <= u64::MAX,
    ensures
        final(out)@ == xof_bytes(key@, position as nat, old(out)@.len()),
{
    let mut reader = blake3::Hasher::new().update(key).finalize_xof();
    reader.set_position(position);
    reader.fill(out);
}

/// `zeroize::Zeroize::zeroize` on an array of bytes: every byte is
/// overwritten with zero.
#[verifier::external_body]
pub(crate) fn wipe_bytes(bytes: &mut [u8; 32])
    ensures
        forall|i: int| 0 <= i < 32 ==> final(bytes)@[i] == 0u8,
{
    bytes.zeroize();
}

/// Whether every byte is zero.
pub open spec fn all_zero(bytes: Seq<u8>) -> bool {
    forall|i: int| 0 <= i < bytes.len() ==> bytes[i] == 0u8
}

/// A deterministic stream of bytes: the extended output of BLAKE3 for a key
/// of 32 bytes, read from a position on.
pub struct Keystream {
    key: [u8; 32],
    position: u64,
}

impl Keystream {
    /// The key of the stream.
    pub closed spec fn key(&self) -> Seq<u8> {
        self.key@
    }

    /// The position of the next byte.
    pub closed spec fn position(&self) -> nat {
        self.position as nat
    }

    /// The stream for `key`, at its beginning.
    pub fn new(key: &[u8; 32]) -> (r: Keystream)
        ensures
            r.key() == key@,
            r.position() == 0,
    {
        Keystream { key: *key, position: 0 }
    }

    /// Fills the buffer with the next bytes of the stream.
    pub fn read(&mut self, out: &mut [u8])
        ensures
            final(out)@ == stream_read(old(self).key(), old(self).position(), old(out)@),
            final(self).key() == old(self).key(),
            final(self).position() == stream_advance(old(self).position(), old(out)@.len()),
    {
        let len: usize = out.len();
        if len as u64 <= u64::MAX - self.position {
            xof_fill(&self.key, self.position, out);
            self.position = self.position + len as u64;
        }
    }

    /// Overwrites the key with zero bytes and goes back to the beginning.
    pub fn wipe(&mut self)
        ensures
            all_zero(final(self).key()),
            final(self).position() == 0,
    {
        wipe_bytes(&mut self.key);
        self.position = 0;
    }
}

/// The stream as a source of random bits for `rand_core`: words are read
/// from the stream in little-endian order.
impl RngCore for Keystream {
    fn next_u32(&mut self) -> (r: u32)
        ensures
            r == spec_u32_from_le_bytes(
                stream_read(old(self).key(), old(self).position(), seq![0u8, 0u8, 0u8, 0u8]),
            ),
            final(self).key() == old(self).key(),
            final(self).position() == stream_advance(old(self).position(), 4),
    {
        let mut bytes: [u8; 4] = [0u8; 4];
        assert(bytes@ =~= seq![0u8, 0u8, 0u8, 0u8]);
        self.read(&mut bytes);
        u32_from_le_bytes(bytes.as_slice())
    }

    fn next_u64(&mut self) -> (r: u64)
        ensures
            r == spec_u64_from_le_bytes(
                stream_read(
                    old(self).key(),
                    old(self).position(),
                    seq![0u8, 0u8, 0u8, 0u8, 0u8, 0u8, 0u8, 0u8],
                ),
            ),
            final(self).key() == old(self).key(),
            final(self).position() == stream_advance(old(self).position(), 8),
    {
        let mut bytes: [u8; 8] = [0u8; 8];
        assert(bytes@ =~= seq![0u8, 0u8, 0u8, 0u8, 0u8, 0u8, 0u8, 0u8]);
        self.read(&mut bytes);
        u64_from_le_bytes(bytes.as_slice())
    }

    fn fill_bytes(&mut self, dest: &mut [u8])
        ensures
            final(dest)@ == stream_read(old(self).key(), old(self).position(), old(dest)@),
            final(self).key() == old(self).key(),
            final(self).position() == stream_advance(old(self).position(), old(dest)@.len()),
    {
        self.read(dest);
    }

    fn try_fill_bytes(&mut self, dest: &mut [u8]) -> (r: Result<(), rand_core::Error>)
        ensures
            r is Ok,
            final(dest)@ == stream_read(old(self).key(), old(self).position(), old(dest)@),
            final(self).key() == old(self).key(),
            final(self).position() == stream_advance(old(self).position(), old(dest)@.len()),
    {
        self.read(dest);
        Ok(())
    }
}

} // verus!
