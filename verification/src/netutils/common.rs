//! The 16-bit one's-complement checksum shared by IPv4 and UDP, and small
//! helpers for writing header fields.

use vstd::prelude::*;

verus! {

/// Weight of the byte at `index` when the data is read as big-endian
/// 16-bit words: the high byte of a word counts 256 times.
pub open spec fn byte_weight(index: int) -> nat {
    if index % 2 == 0 {
        256
    } else {
        1
    }
}

/// Sum of `data` read as big-endian 16-bit words, a trailing odd byte
/// being the high byte of a word whose low byte is zero.
pub open spec fn word_sum(data: Seq<u8>) -> nat
    decreases data.len(),
{
    if data.len() == 0 {
        0
    } else {
        word_sum(data.drop_last()) + byte_weight(data.len() - 1) * (data.last() as nat)
    }
}

/// One folding step: the carries above bit 15 are added back into the low
/// 16 bits.
pub open spec fn fold_step(sum: nat) -> nat {
    sum % 0x10000 + sum / 0x10000
}

/// Folds carries until the sum fits in 16 bits.
pub open spec fn fold_carries(sum: nat) -> nat
    decreases sum,
{
    if sum < 0x10000 {
        sum
    } else {
        fold_carries(fold_step(sum))
    }
}

/// The checksum of `data`: the complement of the folded word sum, with
/// `0xffff` standing in for a complement of zero.
pub open spec fn checksum16_spec(data: Seq<u8>) -> u16 {
    let folded = fold_carries(word_sum(data));
    if folded == 0xffff {
        0xffffu16
    } else {
        (0xffff - folded) as u16
    }
}

/// Bits 8 to 15 of `value`: the first byte of its 16-bit big-endian form.
pub open spec fn high_byte(value: int) -> u8 {
    ((value / 256) % 256) as u8
}

/// Bits 0 to 7 of `value`: the second byte of its 16-bit big-endian form.
pub open spec fn low_byte(value: int) -> u8 {
    (value % 256) as u8
}

/// `data` with a zero byte appended where its length is odd.
pub open spec fn pad_even(data: Seq<u8>) -> Seq<u8> {
    if data.len() % 2 == 1 {
        data.push(0u8)
    } else {
        data
    }
}

/// `dst` with `src` written over it from offset `at` on.
pub open spec fn overwrite(dst: Seq<u8>, at: int, src: Seq<u8>) -> Seq<u8> {
    Seq::new(
        dst.len(),
        |i: int|
            if at <= i < at + src.len() {
                src[i - at]
            } else {
                dst[i]
            },
    )
}

/// Adds a 16-bit word to the 32-bit accumulator. An accumulator close to
/// its limit has its carries folded first, which leaves the folded total
/// as it is.
fn accumulate(sum: u32, word: u32) -> (next: u32)
    requires
        word <= 0xffff,
    ensures
        fold_carries(next as nat) == fold_carries(sum as nat + word as nat),
{
    let mut sum = sum;
    if sum > 0xfffe_0000 {
        proof {
            assert(sum & 0xffff == sum % 0x10000) by (bit_vector);
            assert(sum >> 16 == sum / 0x10000) by (bit_vector);
            lemma_fold_carries_partial(sum as nat, word as nat);
        }
        sum = (sum & 0xffff) + (sum >> 16);
    }
    sum + word
}

/// Computes the 16-bit one's-complement checksum of `data`: the data is
/// summed as big-endian 16-bit words, a trailing odd byte padded with a
/// zero low byte; the carries are folded back until the sum fits 16 bits;
/// the result is the complement of the sum, or `0xffff` where that is zero.
pub fn checksum16(data: &[u8]) -> (result: u16)
    ensures
        result == checksum16_spec(data@),
{
    let mut sum: u32 = 0;
    let len = data.len();
    let mut i: usize = 0;
    proof {
        assert(data@.subrange(0, 0) =~= Seq::<u8>::empty());
    }
    while len - i > 1
        invariant
            len == data@.len(),
            i <= len,
            i % 2 == 0,
            fold_carries(sum as nat) == fold_carries(word_sum(data@.subrange(0, i as int))),
        decreases len - i,
    {
        let high: u32 = data[i] as u32;
        let low: u32 = data[i + 1] as u32;
        let word: u32 = (high << 8) | low;
        proof {
            assert(((high << 8) | low) == high * 256 + low) by (bit_vector)
                requires
                    high < 256,
                    low < 256,
            ;
            let prefix = data@.subrange(0, i as int);
            let longer = prefix.push(data@[i as int]);
            lemma_fold_carries_congruent(sum as nat, word_sum(prefix), word as nat);
            lemma_word_sum_push(prefix, data@[i as int]);
            lemma_word_sum_push(longer, data@[i + 1]);
            assert(longer.push(data@[i + 1]) =~= data@.subrange(0, i + 2));
        }
        sum = accumulate(sum, word);
        i += 2;
    }
    if i < len {
        let high: u32 = data[i] as u32;
        let word: u32 = high << 8;
        proof {
            assert((high << 8) == high * 256) by (bit_vector)
                requires
                    high < 256,
            ;
            let prefix = data@.subrange(0, i as int);
            lemma_fold_carries_congruent(sum as nat, word_sum(prefix), word as nat);
            lemma_word_sum_push(prefix, data@[i as int]);
            assert(prefix.push(data@[i as int]) =~= data@);
        }
        sum = accumulate(sum, word);
    } else {
        proof {
            assert(data@.subrange(0, i as int) =~= data@);
        }
    }
    while (sum >> 16) != 0
        invariant
            fold_carries(sum as nat) == fold_carries(word_sum(data@)),
        decreases sum,
    {
        proof {
            assert(sum & 0xffff == sum % 0x10000) by (bit_vector);
            assert(sum >> 16 == sum / 0x10000) by (bit_vector);
        }
        sum = (sum & 0xffff) + (sum >> 16);
    }
    proof {
        assert(sum >> 16 == sum / 0x10000) by (bit_vector);
    }
    let folded: u16 = sum as u16;
    let result: u16 = !folded;
    proof {
        assert(!folded == 0xffff - folded) by (bit_vector);
    }
    if result == 0 {
        0xffff
    } else {
        result
    }
}

/// Bits 8 to 15 of a length or checksum, as a byte.
pub fn high_byte_of(value: usize) -> (byte: u8)
    ensures
        byte == high_byte(value as int),
{
    assert((value >> 8) & 0xff == (value / 256) % 256) by (bit_vector);
    ((value >> 8) & 0xff) as u8
}

/// Bits 0 to 7 of a length or checksum, as a byte.
pub fn low_byte_of(value: usize) -> (byte: u8)
    ensures
        byte == low_byte(value as int),
{
    assert(value & 0xff == value % 256) by (bit_vector);
    (value & 0xff) as u8
}

/// Writes one byte into the packet that takes up the first `len` bytes of
/// `buf`.
pub fn put(buf: &mut [u8], len: usize, at: usize, byte: u8)
    requires
        at < len <= old(buf)@.len(),
    ensures
        final(buf)@.len() == old(buf)@.len(),
        final(buf)@.take(len as int) == old(buf)@.take(len as int).update(at as int, byte),
        final(buf)@.skip(len as int) == old(buf)@.skip(len as int),
{
    buf[at] = byte;
    proof {
        assert(buf@.take(len as int) =~= old(buf)@.take(len as int).update(at as int, byte));
        assert(buf@.skip(len as int) =~= old(buf)@.skip(len as int));
    }
}

/// Copies `src` over `dst[at..at + src.len()]`.
pub fn copy_into(dst: &mut [u8], at: usize, src: &[u8])
    requires
        at + src@.len() <= old(dst)@.len(),
    ensures
        final(dst)@ == overwrite(old(dst)@, at as int, src@),
{
    let n = src.len();
    let total = dst.len();
    let mut k: usize = 0;
    while k < n
        invariant
            n == src@.len(),
            k <= n,
            total == dst@.len(),
            at + n <= total,
            dst@.len() == old(dst)@.len(),
            dst@ == overwrite(old(dst)@, at as int, src@.subrange(0, k as int)),
        decreases n - k,
    {
        dst[at + k] = src[k];
        k += 1;
    }
    proof {
        assert(src@.subrange(0, n as int) =~= src@);
    }
}

/// The folded sum in closed form: zero stays zero, every other sum is
/// reduced to its representative in `1..=0xffff` modulo `0xffff`.
pub proof fn lemma_fold_carries_closed_form(sum: nat)
    ensures
        sum == 0 ==> fold_carries(sum) == 0,
        sum > 0 ==> fold_carries(sum) == (sum - 1) % 0xffff + 1,
        fold_carries(sum) <= 0xffff,
    decreases sum,
{
    if sum >= 0x10000 {
        let q = sum / 0x10000;
        let next = fold_step(sum);
        lemma_fold_carries_closed_form(next);
        assert(sum - 1 == (next - 1) + q * 0xffff);
        assert((sum - 1) % 0xffff == (next - 1) % 0xffff) by {
            vstd::arithmetic::div_mod::lemma_mod_multiples_vanish(q as int, next - 1, 0xffff);
        }
    }
}

/// Folding a part of a sum early does not change the folded total.
pub proof fn lemma_fold_carries_partial(a: nat, b: nat)
    ensures
        fold_carries(fold_step(a) + b) == fold_carries(a + b),
{
    let q = a / 0x10000;
    let folded = fold_step(a);
    lemma_fold_carries_closed_form(folded + b);
    lemma_fold_carries_closed_form(a + b);
    if a + b > 0 {
        assert(a + b - 1 == (folded + b - 1) + q * 0xffff);
        vstd::arithmetic::div_mod::lemma_mod_multiples_vanish(q as int, folded + b - 1, 0xffff);
    }
}

/// Two sums with the same folded value keep the same folded value when the
/// same amount is added to both.
pub proof fn lemma_fold_carries_congruent(a: nat, b: nat, c: nat)
    requires
        fold_carries(a) == fold_carries(b),
    ensures
        fold_carries(a + c) == fold_carries(b + c),
{
    lemma_fold_carries_closed_form(a);
    lemma_fold_carries_closed_form(b);
    lemma_fold_carries_closed_form(a + c);
    lemma_fold_carries_closed_form(b + c);
    if a > 0 && b > 0 {
        let rest = (a - 1) % 0xffff;
        vstd::arithmetic::div_mod::lemma_fundamental_div_mod(a - 1, 0xffff);
        vstd::arithmetic::div_mod::lemma_fundamental_div_mod(b - 1, 0xffff);
        let qa = (a - 1) / 0xffff;
        let qb = (b - 1) / 0xffff;
        assert(a + c - 1 == (rest + c) + qa * 0xffff);
        assert(b + c - 1 == (rest + c) + qb * 0xffff);
        vstd::arithmetic::div_mod::lemma_mod_multiples_vanish(qa, rest + c, 0xffff);
        vstd::arithmetic::div_mod::lemma_mod_multiples_vanish(qb, rest + c, 0xffff);
    }
}

/// A buffer is the packet at its start followed by what lies behind it,
/// and a packet that takes up the whole buffer has nothing behind it.
pub proof fn lemma_prefix_and_rest(buf: Seq<u8>, len: int)
    requires
        0 <= len <= buf.len(),
    ensures
        buf == buf.take(len) + buf.skip(len),
        len == buf.len() ==> buf.take(len) == buf && buf.skip(len) == Seq::<u8>::empty(),
        forall|other: Seq<u8>| other + Seq::<u8>::empty() == other,
{
    assert(buf =~= buf.take(len) + buf.skip(len));
    if len == buf.len() {
        assert(buf.take(len) =~= buf);
        assert(buf.skip(len) =~= Seq::<u8>::empty());
    }
    assert forall|other: Seq<u8>| other + Seq::<u8>::empty() == other by {
        assert(other + Seq::<u8>::empty() =~= other);
    }
}

/// Appending one byte adds its weighted value to the word sum.
pub proof fn lemma_word_sum_push(data: Seq<u8>, byte: u8)
    ensures
        word_sum(data.push(byte)) == word_sum(data) + byte_weight(data.len() as int) * (
        byte as nat),
{
    assert(data.push(byte).drop_last() =~= data);
}

/// Replacing one byte changes the word sum by the weighted difference.
pub proof fn lemma_word_sum_update(data: Seq<u8>, at: int, byte: u8)
    requires
        0 <= at < data.len(),
    ensures
        word_sum(data.update(at, byte)) + byte_weight(at) * (data[at] as nat) == word_sum(data)
            + byte_weight(at) * (byte as nat),
    decreases data.len(),
{
    if at == data.len() - 1 {
        assert(data.update(at, byte).drop_last() =~= data.drop_last());
    } else {
        lemma_word_sum_update(data.drop_last(), at, byte);
        assert(data.update(at, byte).drop_last() =~= data.drop_last().update(at, byte));
    }
}

/// The checksum is never zero.
pub proof fn lemma_checksum16_nonzero(data: Seq<u8>)
    ensures
        checksum16_spec(data) != 0,
{
    lemma_fold_carries_closed_form(word_sum(data));
}

/// Zero padding to even length does not change the checksum.
pub proof fn lemma_checksum16_pad_even(data: Seq<u8>)
    ensures
        checksum16_spec(pad_even(data)) == checksum16_spec(data),
{
    if data.len() % 2 == 1 {
        lemma_word_sum_push(data, 0u8);
    }
}

/// What a receiver checks: once the checksum of `data` is written into a
/// zeroed field that starts at an even offset, the folded word sum of the
/// whole is `0xffff`.
pub proof fn lemma_checksum_verifies(data: Seq<u8>, at: int)
    requires
        0 <= at,
        at + 1 < data.len(),
        at % 2 == 0,
        data[at] == 0,
        data[at + 1] == 0,
    ensures
        ({
            let sum = checksum16_spec(data) as int;
            fold_carries(word_sum(data.update(at, high_byte(sum)).update(at + 1, low_byte(sum))))
                == 0xffff
        }),
{
    let sum = checksum16_spec(data) as int;
    let plain = word_sum(data);
    let first = data.update(at, high_byte(sum));
    let both = first.update(at + 1, low_byte(sum));
    lemma_word_sum_update(data, at, high_byte(sum));
    lemma_word_sum_update(first, at + 1, low_byte(sum));
    assert(word_sum(both) == plain + sum) by {
        assert(byte_weight(at) == 256 && byte_weight(at + 1) == 1);
        assert(first[at + 1] == 0);
        assert(high_byte(sum) as int == sum / 256);
        assert(low_byte(sum) as int == sum % 256);
    }
    lemma_fold_carries_closed_form(plain);
    lemma_fold_carries_closed_form(plain + sum as nat);
    if plain > 0 {
        let folded = fold_carries(plain);
        let q = (plain - 1) / 0xffff;
        let laps = if folded == 0xffff {
            q + 1
        } else {
            q
        };
        vstd::arithmetic::div_mod::lemma_fundamental_div_mod(plain - 1, 0xffff);
        assert(plain + sum - 1 == 0xfffe + laps * 0xffff);
        vstd::arithmetic::div_mod::lemma_mod_multiples_vanish(laps, 0xfffe, 0xffff);
    }
}

} // verus!
