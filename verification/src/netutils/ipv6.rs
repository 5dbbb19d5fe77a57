//! IPv6 header repair: payload length, UDP length and UDP checksum.

use vstd::prelude::*;
use crate::netutils::common::{
    checksum16, checksum16_spec, copy_into, fold_carries, high_byte, high_byte_of,
    lemma_checksum16_pad_even, lemma_checksum_verifies, lemma_prefix_and_rest, low_byte,
    low_byte_of, pad_even, put, word_sum,
};

verus! {

/// Longest UDP segment whose pseudo-header buffer is kept on the stack.
pub const MAX_STACK_UDP: usize = 2048;

/// The low 32 bits of `udp_len` in big-endian byte order.
pub open spec fn length_bytes(udp_len: int) -> Seq<u8> {
    seq![
        ((udp_len / 0x100_0000) % 256) as u8,
        ((udp_len / 0x1_0000) % 256) as u8,
        high_byte(udp_len),
        low_byte(udp_len),
    ]
}

/// The IPv6 pseudo-header of a UDP segment of `udp_len` bytes: source and
/// destination address, the 32-bit length, three zero bytes and next
/// header 17.
pub open spec fn pseudo_header(src_ip: Seq<u8>, dst_ip: Seq<u8>, udp_len: int) -> Seq<u8> {
    src_ip + dst_ip + length_bytes(udp_len) + seq![0u8, 0u8, 0u8, 17u8]
}

/// The UDP checksum over the pseudo-header followed by the segment,
/// zero-padded to even length.
pub open spec fn udp_checksum_spec(udp: Seq<u8>, src_ip: Seq<u8>, dst_ip: Seq<u8>) -> u16 {
    checksum16_spec(pad_even(pseudo_header(src_ip, dst_ip, udp.len() as int) + udp))
}

/// Whether the packet holds the fixed IPv6 header and a UDP header.
pub open spec fn repairable(packet: Seq<u8>) -> bool {
    packet.len() >= 48
}

/// The packet with payload length and UDP length written and the UDP
/// checksum field zeroed.
pub open spec fn with_lengths(packet: Seq<u8>) -> Seq<u8> {
    let payload = packet.len() - 40;
    packet.update(4, high_byte(payload)).update(5, low_byte(payload)).update(
        44,
        high_byte(payload),
    ).update(45, low_byte(payload)).update(46, 0u8).update(47, 0u8)
}

/// The UDP checksum that belongs to the packet's length and addresses.
pub open spec fn udp_checksum_of(packet: Seq<u8>) -> u16 {
    let zeroed = with_lengths(packet);
    udp_checksum_spec(
        zeroed.subrange(40, packet.len() as int),
        zeroed.subrange(8, 24),
        zeroed.subrange(24, 40),
    )
}

/// The repaired packet: lengths rewritten, then the UDP checksum computed
/// over the packet with a zeroed checksum field and written back. A packet
/// shorter than 48 bytes stays as it is.
pub open spec fn fix_udp_headers_spec(packet: Seq<u8>) -> Seq<u8> {
    if !repairable(packet) {
        packet
    } else {
        let udp_sum = udp_checksum_of(packet);
        with_lengths(packet).update(46, high_byte(udp_sum as int)).update(
            47,
            low_byte(udp_sum as int),
        )
    }
}

/// Bits 24 to 31 of a length, as a byte.
fn fourth_byte_of(value: usize) -> (byte: u8)
    ensures
        byte == ((value as int / 0x100_0000) % 256) as u8,
{
    assert((value >> 24) & 0xff == (value / 0x100_0000) % 256) by (bit_vector);
    ((value >> 24) & 0xff) as u8
}

/// Bits 16 to 23 of a length, as a byte.
fn third_byte_of(value: usize) -> (byte: u8)
    ensures
        byte == ((value as int / 0x1_0000) % 256) as u8,
{
    assert((value >> 16) & 0xff == (value / 0x1_0000) % 256) by (bit_vector);
    ((value >> 16) & 0xff) as u8
}

/// Computes the UDP checksum of a segment sent between two IPv6 addresses.
///
/// Segments of up to `MAX_STACK_UDP` bytes are summed in a buffer on the
/// stack, longer ones in a buffer on the heap.
pub fn udp_checksum(udp: &[u8], src_ip: &[u8], dst_ip: &[u8]) -> (sum: u16)
    requires
        src_ip@.len() == 16,
        dst_ip@.len() == 16,
        udp@.len() + 40 <= usize::MAX,
    ensures
        sum == udp_checksum_spec(udp@, src_ip@, dst_ip@),
{
    let udp_len = udp.len();
    let ghost expected = pad_even(pseudo_header(src_ip@, dst_ip@, udp_len as int) + udp@);
    if udp_len <= MAX_STACK_UDP {
        let pseudo_len = 40 + udp_len + (udp_len % 2);
        let mut pseudo = [0u8; 2089];
        copy_into(&mut pseudo, 0, src_ip);
        copy_into(&mut pseudo, 16, dst_ip);
        pseudo[32] = fourth_byte_of(udp_len);
        pseudo[33] = third_byte_of(udp_len);
        pseudo[34] = high_byte_of(udp_len);
        pseudo[35] = low_byte_of(udp_len);
        pseudo[36] = 0;
        pseudo[37] = 0;
        pseudo[38] = 0;
        pseudo[39] = 17;
        copy_into(&mut pseudo, 40, udp);
        if udp_len % 2 != 0 {
            pseudo[40 + udp_len] = 0;
        }
        proof {
            assert(pseudo@.subrange(0, pseudo_len as int) =~= expected);
        }
        checksum16(&pseudo[0..pseudo_len])
    } else {
        let mut pseudo: Vec<u8> = Vec::with_capacity(40 + udp_len);
        pseudo.extend_from_slice(src_ip);
        pseudo.extend_from_slice(dst_ip);
        pseudo.push(fourth_byte_of(udp_len));
        pseudo.push(third_byte_of(udp_len));
        pseudo.push(high_byte_of(udp_len));
        pseudo.push(low_byte_of(udp_len));
        pseudo.push(0);
        pseudo.push(0);
        pseudo.push(0);
        pseudo.push(17);
        pseudo.extend_from_slice(udp);
        if pseudo.len() % 2 != 0 {
            pseudo.push(0);
        }
        proof {
            assert(pseudo@ =~= expected);
        }
        checksum16(pseudo.as_slice())
    }
}

/// Repairs the headers of the first `len` bytes of `buf`, read as an IPv6
/// packet that carries UDP; the bytes behind them are not touched.
pub fn fix_udp_headers_prefix(buf: &mut [u8], len: usize)
    requires
        len <= old(buf)@.len(),
    ensures
        final(buf)@ == fix_udp_headers_spec(old(buf)@.take(len as int)) + old(buf)@.skip(
            len as int,
        ),
{
    let ghost packet = buf@.take(len as int);
    proof {
        lemma_prefix_and_rest(buf@, len as int);
    }
    if len < 48 {
        return ;
    }
    let udp_start: usize = 40;
    let payload_len = len - 40;
    put(buf, len, 4, high_byte_of(payload_len));
    put(buf, len, 5, low_byte_of(payload_len));
    put(buf, len, udp_start + 4, high_byte_of(payload_len));
    put(buf, len, udp_start + 5, low_byte_of(payload_len));
    put(buf, len, udp_start + 6, 0);
    put(buf, len, udp_start + 7, 0);
    proof {
        let zeroed = with_lengths(packet);
        let current = buf@.take(len as int);
        assert(current =~= zeroed);
        assert(buf@.subrange(40, len as int) =~= current.subrange(40, len as int));
        assert(buf@.subrange(8, 24) =~= current.subrange(8, 24));
        assert(buf@.subrange(24, 40) =~= current.subrange(24, 40));
    }
    let sum = udp_checksum(&buf[udp_start..len], &buf[8..24], &buf[24..40]);
    put(buf, len, udp_start + 6, high_byte_of(sum as usize));
    put(buf, len, udp_start + 7, low_byte_of(sum as usize));
    proof {
        lemma_prefix_and_rest(buf@, len as int);
    }
}

/// Repairs an IPv6 packet that carries UDP: payload length, UDP length and
/// UDP checksum. Does nothing to a packet shorter than 48 bytes.
pub fn fix_udp_headers(packet: &mut [u8])
    ensures
        final(packet)@ == fix_udp_headers_spec(old(packet)@),
{
    let len = packet.len();
    proof {
        lemma_prefix_and_rest(packet@, len as int);
    }
    fix_udp_headers_prefix(packet, len);
}

/// Repairing a packet twice gives the same bytes as repairing it once.
pub proof fn lemma_fix_udp_headers_idempotent(packet: Seq<u8>)
    ensures
        fix_udp_headers_spec(fix_udp_headers_spec(packet)) == fix_udp_headers_spec(packet),
{
    if repairable(packet) {
        let once = fix_udp_headers_spec(packet);
        assert(with_lengths(once) =~= with_lengths(packet));
        assert(fix_udp_headers_spec(once) =~= once);
    }
}

/// Repair changes nothing but the two length fields and the checksum
/// field.
pub proof fn lemma_fix_udp_headers_frame(packet: Seq<u8>, index: int)
    requires
        0 <= index < packet.len(),
        index != 4 && index != 5,
        !(44 <= index < 48),
    ensures
        fix_udp_headers_spec(packet).len() == packet.len(),
        fix_udp_headers_spec(packet)[index] == packet[index],
{
}

/// A repaired packet passes the check of a receiver: the folded word sum
/// of its pseudo-header followed by its UDP segment is `0xffff`. Both
/// length fields hold the length of what follows the IPv6 header.
pub proof fn lemma_fix_udp_headers_checksums_verify(packet: Seq<u8>)
    requires
        repairable(packet),
    ensures
        ({
            let fixed = fix_udp_headers_spec(packet);
            let total = packet.len() as int;
            &&& fixed.len() == total
            &&& fixed[4] == high_byte(total - 40) && fixed[5] == low_byte(total - 40)
            &&& fixed[44] == high_byte(total - 40) && fixed[45] == low_byte(total - 40)
            &&& fold_carries(
                word_sum(
                    pseudo_header(fixed.subrange(8, 24), fixed.subrange(24, 40), total - 40)
                        + fixed.subrange(40, total),
                ),
            ) == 0xffff
        }),
{
    let fixed = fix_udp_headers_spec(packet);
    let total = packet.len() as int;
    let zeroed = with_lengths(packet);
    let src = zeroed.subrange(8, 24);
    let dst = zeroed.subrange(24, 40);
    let segment = zeroed.subrange(40, total);
    let summed = pseudo_header(src, dst, total - 40) + segment;
    let udp_sum = udp_checksum_of(packet) as int;
    lemma_checksum16_pad_even(summed);
    lemma_checksum_verifies(summed, 46);
    assert(fixed.subrange(8, 24) =~= src);
    assert(fixed.subrange(24, 40) =~= dst);
    assert(pseudo_header(src, dst, total - 40) + fixed.subrange(40, total) =~= summed.update(
        46,
        high_byte(udp_sum),
    ).update(47, low_byte(udp_sum)));
}

/// Repair reads nothing of the fields it writes: two packets of equal
/// length that agree outside the length and checksum fields are repaired
/// to the same bytes.
pub proof fn lemma_fix_udp_headers_ignores_fields(first: Seq<u8>, second: Seq<u8>)
    requires
        repairable(first),
        first.len() == second.len(),
        forall|i: int|
            0 <= i < first.len() && i != 4 && i != 5 && !(44 <= i < 48) ==> first[i] == second[i],
    ensures
        fix_udp_headers_spec(first) == fix_udp_headers_spec(second),
{
    assert(with_lengths(first) =~= with_lengths(second));
    assert(fix_udp_headers_spec(first) =~= fix_udp_headers_spec(second));
}

} // verus!
