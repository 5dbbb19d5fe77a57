//! Stream ciphers behind one keystream-XOR operation: the full-round
//! ChaCha20 where the machine has a fast path for it, the reduced-round
//! fallback elsewhere.

use vstd::prelude::*;
use chacha20::cipher::{KeyIvInit, StreamCipher, StreamCipherSeek};
use chacha20::ChaCha20;
use crate::config::CipherMode;

pub mod chacha6;
pub mod randomiser;

pub use chacha6::ChaCha6;

verus! {

/// Length of the nonce that the transform appends to a packet.
pub const NONCE_LEN: usize = 12;

/// Number of keystream bytes that one key and nonce give on the fast path:
/// 2^32 - 1 blocks of 64 bytes.
pub const FAST_STREAM_LIMIT: u64 = 0x3f_ffff_ffc0;

/// Byte `index` of the ChaCha20 keystream of the `chacha20` crate for a
/// 32-byte key and a 12-byte nonce, the block counter starting at zero.
pub uninterp spec fn chacha20_keystream_byte(key: Seq<u8>, nonce: Seq<u8>, index: nat) -> u8;

/// Whether the full-round cipher is taken: the mode does not force the
/// fallback, and the machine has the fast path.
pub open spec fn uses_fast(mode: CipherMode, fast_available: bool) -> bool {
    mode != CipherMode::Standard && fast_available
}

/// What a cipher is to the contracts: its variant with the key material
/// and the place in the keystream.
pub enum CipherModel {
    /// Full-round ChaCha20 at byte `position` of its keystream.
    Fast { key: Seq<u8>, nonce: Seq<u8>, position: nat },
    /// Reduced-round ChaCha with the given state words.
    Fallback { state: Seq<u32> },
}

impl CipherModel {
    /// The cipher that `CipherImpl::new` sets up.
    pub open spec fn fresh(
        key: Seq<u8>,
        nonce: Seq<u8>,
        mode: CipherMode,
        fast_available: bool,
    ) -> CipherModel {
        if uses_fast(mode, fast_available) {
            CipherModel::Fast { key, nonce, position: 0 }
        } else {
            CipherModel::Fallback { state: chacha6::initial_state(key, nonce.subrange(0, 8)) }
        }
    }

    /// Byte `index` of the keystream that the next call of `xor` applies.
    pub open spec fn keystream_byte(self, index: int) -> u8 {
        match self {
            CipherModel::Fast { key, nonce, position } => chacha20_keystream_byte(
                key,
                nonce,
                (position + index) as nat,
            ),
            CipherModel::Fallback { state } => chacha6::keystream_byte(state, index),
        }
    }

    /// `data` with the keystream XORed over it.
    pub open spec fn xor(self, data: Seq<u8>) -> Seq<u8> {
        Seq::new(data.len(), |i: int| data[i] ^ self.keystream_byte(i))
    }

    /// The cipher after `len` bytes went through `xor`: the fast path moves
    /// on by bytes, the fallback by whole blocks.
    pub open spec fn after(self, len: nat) -> CipherModel {
        match self {
            CipherModel::Fast { key, nonce, position } => CipherModel::Fast {
                key,
                nonce,
                position: position + len,
            },
            CipherModel::Fallback { state } => CipherModel::Fallback {
                state: chacha6::advance(state, chacha6::blocks_for(len)),
            },
        }
    }

    /// Whether `len` more bytes are within what the keystream gives.
    pub open spec fn has_room(self, len: nat) -> bool {
        match self {
            CipherModel::Fast { position, .. } => position + len <= FAST_STREAM_LIMIT,
            CipherModel::Fallback { .. } => true,
        }
    }
}

/// A stream cipher set up for one key and nonce.
pub enum CipherImpl {
    /// Full-round ChaCha20: key, nonce and the number of keystream bytes
    /// used so far.
    Fast { key: [u8; 32], nonce: [u8; NONCE_LEN], position: u64 },
    /// Reduced-round ChaCha on the first eight bytes of the nonce.
    Fallback(ChaCha6),
}

impl View for CipherImpl {
    type V = CipherModel;

    open spec fn view(&self) -> CipherModel {
        match self {
            CipherImpl::Fast { key, nonce, position } => CipherModel::Fast {
                key: key@,
                nonce: nonce@,
                position: *position as nat,
            },
            CipherImpl::Fallback(cipher) => CipherModel::Fallback { state: cipher@ },
        }
    }
}

/// Sets up a `chacha20::ChaCha20` for `key` and `nonce`, seeks to byte
/// `position` of its keystream and calls `apply_keystream` on `data`.
/// The claim: every byte of `data` is XORed with the keystream byte at its
/// place, counted from `position`. The crate panics past 2^32 - 1 blocks,
/// which the precondition leaves out.
#[verifier::external_body]
fn chacha20_apply(key: &[u8; 32], nonce: &[u8; 12], position: u64, data: &mut [u8])
    requires
        position + old(data)@.len() <= FAST_STREAM_LIMIT,
    ensures
        final(data)@.len() == old(data)@.len(),
        forall|i: int|
            0 <= i < old(data)@.len() ==> final(data)@[i] == old(data)@[i]
                ^ chacha20_keystream_byte(key@, nonce@, (position + i) as nat),
{
    let mut cipher = ChaCha20::new(key.into(), nonce.into());
    cipher.seek(position);
    cipher.apply_keystream(data);
}

impl CipherImpl {
    /// Sets up the cipher for a key and a nonce: the full-round cipher
    /// unless `mode` forces the fallback or the machine lacks the fast
    /// path, the fallback on the first eight bytes of the nonce otherwise.
    pub fn new(
        key: &[u8; 32],
        nonce: &[u8; NONCE_LEN],
        mode: &CipherMode,
        fast_available: bool,
    ) -> (cipher: Self)
        ensures
            cipher@ == CipherModel::fresh(key@, nonce@, *mode, fast_available),
    {
        if *mode != CipherMode::Standard && fast_available {
            return CipherImpl::Fast { key: *key, nonce: *nonce, position: 0 };
        }
        CipherImpl::Fallback(ChaCha6::new(key, &nonce[0..8]))
    }

    /// XORs the keystream over `data` and moves on in the keystream, so
    /// that the next call continues where this one ends.
    pub fn xor(&mut self, data: &mut [u8])
        requires
            old(self)@.has_room(old(data)@.len()),
        ensures
            final(data)@ == old(self)@.xor(old(data)@),
            final(self)@ == old(self)@.after(old(data)@.len()),
    {
        match self {
            CipherImpl::Fast { key, nonce, position } => {
                chacha20_apply(key, nonce, *position, data);
                *position = *position + data.len() as u64;
            },
            CipherImpl::Fallback(cipher) => {
                cipher.xor(data);
            },
        }
    }
}

/// XORing the same keystream byte twice gives the byte back.
pub proof fn lemma_xor_byte_twice(byte: u8, key: u8)
    ensures
        (byte ^ key) ^ key == byte,
{
    assert((byte ^ key) ^ key == byte) by (bit_vector);
}

/// For either variant, two ciphers at the same place of the same keystream
/// undo each other: XORing a second time gives the data back.
pub proof fn lemma_xor_twice(cipher: CipherModel, data: Seq<u8>)
    ensures
        cipher.xor(cipher.xor(data)) == data,
{
    assert forall|i: int| 0 <= i < data.len() implies cipher.xor(cipher.xor(data))[i]
        == data[i] by {
        lemma_xor_byte_twice(data[i], cipher.keystream_byte(i));
    }
    assert(cipher.xor(cipher.xor(data)) =~= data);
}

/// Two ciphers set up from the same key, nonce and mode on the same
/// machine undo each other over inputs of equal length.
pub proof fn lemma_fresh_xor_twice(
    key: Seq<u8>,
    nonce: Seq<u8>,
    mode: CipherMode,
    fast_available: bool,
    data: Seq<u8>,
)
    ensures
        CipherModel::fresh(key, nonce, mode, fast_available).xor(
            CipherModel::fresh(key, nonce, mode, fast_available).xor(data),
        ) == data,
{
    lemma_xor_twice(CipherModel::fresh(key, nonce, mode, fast_available), data);
}

/// Successive calls continue the keystream: XORing two pieces one after
/// the other is XORing them as one. The full-round cipher continues at any
/// byte, the fallback after every whole block.
pub proof fn lemma_xor_continues(cipher: CipherModel, first: Seq<u8>, second: Seq<u8>)
    requires
        cipher matches CipherModel::Fallback { state } ==> state.len() == 16 && first.len() % 64
            == 0,
    ensures
        cipher.xor(first + second) == cipher.xor(first) + cipher.after(first.len()).xor(second),
{
    let whole = cipher.xor(first + second);
    let parts = cipher.xor(first) + cipher.after(first.len()).xor(second);
    assert forall|i: int| 0 <= i < whole.len() implies whole[i] == parts[i] by {
        if i >= first.len() {
            let k = i - first.len();
            match cipher {
                CipherModel::Fast { .. } => {},
                CipherModel::Fallback { state } => {
                    let blocks = chacha6::blocks_for(first.len());
                    assert(blocks == first.len() / 64);
                    assert(i / 64 == blocks + k / 64 && i % 64 == k % 64);
                    chacha6::lemma_advance_twice(state, blocks, (k / 64) as nat);
                },
            }
        }
    }
    assert(whole =~= parts);
}

} // verus!
