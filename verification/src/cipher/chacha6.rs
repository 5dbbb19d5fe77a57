//! The fallback stream cipher: ChaCha with three double rounds, a 64-bit
//! nonce and a 32-bit block counter, all words little-endian.

use vstd::prelude::*;

verus! {

/// Number of 32-bit words in the cipher state.
pub const CHACHA_BLOCK_WORDS: usize = 16;

/// Addition modulo 2^32.
pub open spec fn add32(x: u32, y: u32) -> u32 {
    ((x + y) % 0x1_0000_0000) as u32
}

/// Circular left rotation of a 32-bit word by `n` bits, `0 < n < 32`.
pub open spec fn rotl32(x: u32, n: u32) -> u32 {
    (x << n) | (x >> ((32 - n) as u32))
}

/// The 32-bit word whose little-endian bytes are `b0, b1, b2, b3`.
pub open spec fn le_word(b0: u8, b1: u8, b2: u8, b3: u8) -> u32 {
    (b0 + b1 * 0x100 + b2 * 0x1_0000 + b3 * 0x100_0000) as u32
}

/// The little-endian word that starts at `bytes[at]`.
pub open spec fn le_word_at(bytes: Seq<u8>, at: int) -> u32 {
    le_word(bytes[at], bytes[at + 1], bytes[at + 2], bytes[at + 3])
}

/// Byte `k` (0 the lowest) of the little-endian form of `word`.
pub open spec fn le_byte(word: u32, k: int) -> u8 {
    if k == 0 {
        (word % 0x100) as u8
    } else if k == 1 {
        ((word / 0x100) % 0x100) as u8
    } else if k == 2 {
        ((word / 0x1_0000) % 0x100) as u8
    } else {
        ((word / 0x100_0000) % 0x100) as u8
    }
}

/// The sixteen bytes of "expand 32-byte k".
pub open spec fn constants() -> Seq<u8> {
    seq![
        0x65u8, 0x78u8, 0x70u8, 0x61u8, 0x6eu8, 0x64u8, 0x20u8, 0x33u8, 0x32u8, 0x2du8, 0x62u8,
        0x79u8, 0x74u8, 0x65u8, 0x20u8, 0x6bu8,
    ]
}

/// The state a cipher starts from: four constant words, eight key words,
/// the block counter at zero, two nonce words and a zero word.
pub open spec fn initial_state(key: Seq<u8>, nonce: Seq<u8>) -> Seq<u32> {
    Seq::new(
        16,
        |i: int|
            if i < 4 {
                le_word_at(constants(), 4 * i)
            } else if i < 12 {
                le_word_at(key, 4 * (i - 4))
            } else if i == 12 {
                0u32
            } else if i < 15 {
                le_word_at(nonce, 4 * (i - 13))
            } else {
                0u32
            },
    )
}

/// One quarter round on the words at `a`, `b`, `c` and `d`.
pub open spec fn quarter_round_spec(state: Seq<u32>, a: int, b: int, c: int, d: int) -> Seq<
    u32,
> {
    let s = state.update(a, add32(state[a], state[b]));
    let s = s.update(d, rotl32(s[d] ^ s[a], 16));
    let s = s.update(c, add32(s[c], s[d]));
    let s = s.update(b, rotl32(s[b] ^ s[c], 12));
    let s = s.update(a, add32(s[a], s[b]));
    let s = s.update(d, rotl32(s[d] ^ s[a], 8));
    let s = s.update(c, add32(s[c], s[d]));
    let s = s.update(b, rotl32(s[b] ^ s[c], 7));
    s
}

/// A double round: four column rounds, then four diagonal rounds.
pub open spec fn double_round(state: Seq<u32>) -> Seq<u32> {
    let s = quarter_round_spec(state, 0, 4, 8, 12);
    let s = quarter_round_spec(s, 1, 5, 9, 13);
    let s = quarter_round_spec(s, 2, 6, 10, 14);
    let s = quarter_round_spec(s, 3, 7, 11, 15);
    let s = quarter_round_spec(s, 0, 5, 10, 15);
    let s = quarter_round_spec(s, 1, 6, 11, 12);
    let s = quarter_round_spec(s, 2, 7, 8, 13);
    let s = quarter_round_spec(s, 3, 4, 9, 14);
    s
}

/// `count` double rounds in a row.
pub open spec fn rounds(state: Seq<u32>, count: nat) -> Seq<u32>
    decreases count,
{
    if count == 0 {
        state
    } else {
        double_round(rounds(state, (count - 1) as nat))
    }
}

/// The sixteen words of the keystream block of `state`: three double
/// rounds, then the original state added word by word.
pub open spec fn block_words(state: Seq<u32>) -> Seq<u32> {
    Seq::new(16, |i: int| add32(rounds(state, 3)[i], state[i]))
}

/// The 64 bytes of the keystream block of `state`, each word little-endian.
pub open spec fn block_bytes(state: Seq<u32>) -> Seq<u8> {
    Seq::new(64, |i: int| le_byte(block_words(state)[i / 4], i % 4))
}

/// `state` with its block counter moved on by `blocks`, modulo 2^32.
pub open spec fn advance(state: Seq<u32>, blocks: nat) -> Seq<u32> {
    state.update(12, ((state[12] + blocks) % 0x1_0000_0000) as u32)
}

/// Number of 64-byte blocks that `len` bytes take up.
pub open spec fn blocks_for(len: nat) -> nat {
    (len + 63) / 64
}

/// Byte `index` of the keystream that starts at the block of `state`.
pub open spec fn keystream_byte(state: Seq<u32>, index: int) -> u8 {
    block_bytes(advance(state, (index / 64) as nat))[index % 64]
}

/// `data` with the keystream of `state` XORed over it.
pub open spec fn xor_spec(state: Seq<u32>, data: Seq<u8>) -> Seq<u8> {
    Seq::new(data.len(), |i: int| data[i] ^ keystream_byte(state, i))
}

/// The reduced-round ChaCha cipher: sixteen state words, of which word 12
/// counts the blocks handed out.
pub struct ChaCha6 {
    state: [u32; CHACHA_BLOCK_WORDS],
}

impl View for ChaCha6 {
    type V = Seq<u32>;

    closed spec fn view(&self) -> Seq<u32> {
        self.state@
    }
}

/// Adds two words modulo 2^32.
fn add_words(x: u32, y: u32) -> (sum: u32)
    ensures
        sum == add32(x, y),
{
    x.wrapping_add(y)
}

/// Rotates `x` left by `n` bits.
fn rotate_left(x: u32, n: u32) -> (rotated: u32)
    requires
        0 < n < 32,
    ensures
        rotated == rotl32(x, n),
{
    (x << n) | (x >> (32 - n))
}

/// Reads four bytes as a little-endian word.
fn word_from_le(b0: u8, b1: u8, b2: u8, b3: u8) -> (word: u32)
    ensures
        word == le_word(b0, b1, b2, b3),
{
    let w0: u32 = b0 as u32;
    let w1: u32 = b1 as u32;
    let w2: u32 = b2 as u32;
    let w3: u32 = b3 as u32;
    assert((w0 | (w1 << 8) | (w2 << 16) | (w3 << 24)) == w0 + w1 * 0x100 + w2 * 0x1_0000 + w3
        * 0x100_0000) by (bit_vector)
        requires
            w0 < 256,
            w1 < 256,
            w2 < 256,
            w3 < 256,
    ;
    w0 | (w1 << 8) | (w2 << 16) | (w3 << 24)
}

/// Byte `k` of the little-endian form of `word`.
fn byte_of_word(word: u32, k: usize) -> (byte: u8)
    requires
        k < 4,
    ensures
        byte == le_byte(word, k as int),
{
    assert(word & 0xff == word % 0x100) by (bit_vector);
    assert((word >> 8) & 0xff == (word / 0x100) % 0x100) by (bit_vector);
    assert((word >> 16) & 0xff == (word / 0x1_0000) % 0x100) by (bit_vector);
    assert((word >> 24) & 0xff == (word / 0x100_0000) % 0x100) by (bit_vector);
    if k == 0 {
        (word & 0xff) as u8
    } else if k == 1 {
        ((word >> 8) & 0xff) as u8
    } else if k == 2 {
        ((word >> 16) & 0xff) as u8
    } else {
        ((word >> 24) & 0xff) as u8
    }
}

/// Applies one quarter round to the words at `a`, `b`, `c` and `d`.
pub fn quarter_round(state: &mut [u32], a: usize, b: usize, c: usize, d: usize)
    requires
        a < old(state)@.len(),
        b < old(state)@.len(),
        c < old(state)@.len(),
        d < old(state)@.len(),
    ensures
        final(state)@ == quarter_round_spec(old(state)@, a as int, b as int, c as int, d as int),
{
    state[a] = add_words(state[a], state[b]);
    state[d] = rotate_left(state[d] ^ state[a], 16);
    state[c] = add_words(state[c], state[d]);
    state[b] = rotate_left(state[b] ^ state[c], 12);
    state[a] = add_words(state[a], state[b]);
    state[d] = rotate_left(state[d] ^ state[a], 8);
    state[c] = add_words(state[c], state[d]);
    state[b] = rotate_left(state[b] ^ state[c], 7);
}

impl ChaCha6 {
    /// Sets up the cipher from a 32-byte key and an 8-byte nonce, with the
    /// block counter at zero.
    pub fn new(key: &[u8], nonce: &[u8]) -> (cipher: Self)
        requires
            key@.len() == 32,
            nonce@.len() == 8,
        ensures
            cipher@ == initial_state(key@, nonce@),
    {
        let constants: [u8; 16] = [
            0x65, 0x78, 0x70, 0x61, 0x6e, 0x64, 0x20, 0x33, 0x32, 0x2d, 0x62, 0x79, 0x74, 0x65,
            0x20, 0x6b,
        ];
        let mut state = [0u32; 16];
        let ghost expected = initial_state(key@, nonce@);
        proof {
            assert(constants@ =~= self::constants());
        }
        for i in 0..4usize
            invariant
                constants@ == self::constants(),
                expected == initial_state(key@, nonce@),
                forall|j: int| 0 <= j < i ==> state@[j] == expected[j],
        {
            state[i] = word_from_le(
                constants[i * 4],
                constants[i * 4 + 1],
                constants[i * 4 + 2],
                constants[i * 4 + 3],
            );
        }
        for i in 0..8usize
            invariant
                key@.len() == 32,
                expected == initial_state(key@, nonce@),
                forall|j: int| 0 <= j < 4 + i ==> state@[j] == expected[j],
        {
            let j = i * 4;
            state[4 + i] = word_from_le(key[j], key[j + 1], key[j + 2], key[j + 3]);
        }
        state[12] = 0;
        for i in 0..2usize
            invariant
                nonce@.len() == 8,
                expected == initial_state(key@, nonce@),
                forall|j: int| 0 <= j < 13 + i ==> state@[j] == expected[j],
        {
            let j = i * 4;
            state[13 + i] = word_from_le(nonce[j], nonce[j + 1], nonce[j + 2], nonce[j + 3]);
        }
        state[15] = 0;
        proof {
            assert(state@ =~= expected);
        }
        Self { state }
    }

    /// Hands out the next 64-byte keystream block and moves the block
    /// counter on by one.
    pub fn generate_block(&mut self) -> (block: [u8; 64])
        ensures
            block@ == block_bytes(old(self)@),
            final(self)@ == advance(old(self)@, 1),
    {
        let mut working = self.state;
        let mut round: usize = 0;
        while round < 3
            invariant
                round <= 3,
                working@ == rounds(self.state@, round as nat),
            decreases 3 - round,
        {
            quarter_round(&mut working, 0, 4, 8, 12);
            quarter_round(&mut working, 1, 5, 9, 13);
            quarter_round(&mut working, 2, 6, 10, 14);
            quarter_round(&mut working, 3, 7, 11, 15);
            quarter_round(&mut working, 0, 5, 10, 15);
            quarter_round(&mut working, 1, 6, 11, 12);
            quarter_round(&mut working, 2, 7, 8, 13);
            quarter_round(&mut working, 3, 4, 9, 14);
            round += 1;
        }
        let ghost mixed = working@;
        let mut i: usize = 0;
        while i < 16
            invariant
                i <= 16,
                mixed.len() == 16,
                forall|j: int| 0 <= j < i ==> working@[j] == add32(mixed[j], self.state@[j]),
                forall|j: int| i <= j < 16 ==> working@[j] == mixed[j],
            decreases 16 - i,
        {
            working[i] = add_words(working[i], self.state[i]);
            i += 1;
        }
        proof {
            assert(working@ =~= block_words(self.state@));
        }
        let ghost words = working@;
        let ghost before = self.state@;
        self.state[12] = add_words(self.state[12], 1);

        let mut block = [0u8; 64];
        let mut i: usize = 0;
        while i < 16
            invariant
                i <= 16,
                working@ == words,
                forall|j: int| 0 <= j < 4 * i ==> block@[j] == le_byte(words[j / 4], j % 4),
            decreases 16 - i,
        {
            let word = working[i];
            block[i * 4] = byte_of_word(word, 0);
            block[i * 4 + 1] = byte_of_word(word, 1);
            block[i * 4 + 2] = byte_of_word(word, 2);
            block[i * 4 + 3] = byte_of_word(word, 3);
            i += 1;
        }
        proof {
            assert(block@ =~= block_bytes(before));
            assert(self.state@ =~= advance(before, 1));
        }
        block
    }

    /// XORs the keystream over `data`, one fresh block for every 64 bytes
    /// or part of them.
    pub fn xor(&mut self, data: &mut [u8])
        ensures
            final(data)@ == xor_spec(old(self)@, old(data)@),
            final(self)@ == advance(old(self)@, blocks_for(old(data)@.len())),
    {
        let len = data.len();
        let ghost start = self@;
        let ghost input = data@;
        let mut offset: usize = 0;
        proof {
            assert(self@ =~= advance(start, 0));
        }
        while offset < len
            invariant
                len == data@.len(),
                input.len() == len,
                start.len() == 16,
                offset <= len,
                offset % 64 == 0 || offset == len,
                self@ == advance(start, blocks_for(offset as nat)),
                forall|j: int| 0 <= j < offset ==> data@[j] == input[j] ^ keystream_byte(start, j),
                forall|j: int| offset <= j < len ==> data@[j] == input[j],
            decreases len - offset,
        {
            let ghost state_here = self@;
            let block = self.generate_block();
            let end = if len - offset > 64 {
                offset + 64
            } else {
                len
            };
            proof {
                assert(blocks_for(offset as nat) == offset / 64);
                assert(blocks_for(end as nat) == offset / 64 + 1);
                lemma_advance_twice(start, (offset / 64) as nat, 1);
            }
            let mut k: usize = offset;
            while k < end
                invariant
                    len == data@.len(),
                    input.len() == len,
                    offset <= k <= end <= len,
                    end - offset <= 64,
                    offset % 64 == 0,
                    block@ == block_bytes(advance(start, (offset / 64) as nat)),
                    forall|j: int| 0 <= j < k ==> data@[j] == input[j] ^ keystream_byte(start, j),
                    forall|j: int| k <= j < len ==> data@[j] == input[j],
                decreases end - k,
            {
                data[k] = data[k] ^ block[k - offset];
                k += 1;
            }
            offset = end;
        }
        proof {
            assert(data@ =~= xor_spec(start, input));
        }
    }
}

/// Moving the block counter on in two steps is moving it on by their sum.
pub proof fn lemma_advance_twice(state: Seq<u32>, first: nat, second: nat)
    requires
        state.len() == 16,
    ensures
        advance(advance(state, first), second) == advance(state, first + second),
{
    let counter = state[12] as int;
    vstd::arithmetic::div_mod::lemma_add_mod_noop_right(
        second as int,
        counter + first,
        0x1_0000_0000,
    );
    assert(((counter + first) % 0x1_0000_0000 + second) % 0x1_0000_0000 == (counter + first
        + second) % 0x1_0000_0000);
    assert(advance(advance(state, first), second) =~= advance(state, first + second));
}

/// XORing the keystream of the same state twice gives the data back.
pub proof fn lemma_xor_twice(state: Seq<u32>, data: Seq<u8>)
    ensures
        xor_spec(state, xor_spec(state, data)) == data,
{
    assert forall|i: int| 0 <= i < data.len() implies xor_spec(state, xor_spec(state, data))[i]
        == data[i] by {
        let byte = data[i];
        let key = keystream_byte(state, i);
        assert((byte ^ key) ^ key == byte) by (bit_vector);
    }
    assert(xor_spec(state, xor_spec(state, data)) =~= data);
}

/// Words and bytes are tied by arithmetic alone, whatever the byte order
/// of the host: writing a word as four little-endian bytes and reading them
/// back gives the word, and reading four bytes as a word and writing it
/// gives the bytes.
pub proof fn lemma_le_round_trip(word: u32, b0: u8, b1: u8, b2: u8, b3: u8)
    ensures
        le_word(le_byte(word, 0), le_byte(word, 1), le_byte(word, 2), le_byte(word, 3)) == word,
        le_byte(le_word(b0, b1, b2, b3), 0) == b0,
        le_byte(le_word(b0, b1, b2, b3), 1) == b1,
        le_byte(le_word(b0, b1, b2, b3), 2) == b2,
        le_byte(le_word(b0, b1, b2, b3), 3) == b3,
{
    let value = b0 + b1 * 0x100 + b2 * 0x1_0000 + b3 * 0x100_0000;
    assert(0 <= value < 0x1_0000_0000);
}

} // verus!
