//! IPv4 header repair: total length, header checksum, UDP length and UDP
//! checksum, and clearing of the DiffServ code point.

use vstd::prelude::*;
use crate::netutils::common::{
    checksum16, checksum16_spec, copy_into, fold_carries, high_byte, high_byte_of,
    lemma_checksum16_pad_even, lemma_checksum_verifies, lemma_prefix_and_rest, low_byte,
    low_byte_of, pad_even, put, word_sum,
};

verus! {

/// Longest UDP segment whose pseudo-header buffer is kept on the stack.
pub const MAX_STACK_UDP: usize = 2048;

/// The IPv4 pseudo-header of a UDP segment of `udp_len` bytes: source and
/// destination address, a zero byte, protocol 17 and the 16-bit length.
pub open spec fn pseudo_header(src_ip: Seq<u8>, dst_ip: Seq<u8>, udp_len: int) -> Seq<u8> {
    src_ip + dst_ip + seq![0u8, 17u8, high_byte(udp_len), low_byte(udp_len)]
}

/// The UDP checksum over the pseudo-header followed by the segment,
/// zero-padded to even length.
pub open spec fn udp_checksum_spec(udp: Seq<u8>, src_ip: Seq<u8>, dst_ip: Seq<u8>) -> u16 {
    checksum16_spec(pad_even(pseudo_header(src_ip, dst_ip, udp.len() as int) + udp))
}

/// The packet with the DSCP bits of its ToS byte cleared and the two ECN
/// bits kept; packets shorter than an IPv4 header are left alone.
pub open spec fn clear_diffserv_spec(packet: Seq<u8>) -> Seq<u8> {
    if packet.len() >= 20 {
        packet.update(1, packet[1] & 0x03)
    } else {
        packet
    }
}

/// Header length in bytes that the first byte of a packet declares: four
/// times its low nibble.
pub open spec fn declared_len(first: u8) -> int {
    ((first & 0x0f) as int) * 4
}

/// Header length in bytes, as the IHL nibble declares it.
pub open spec fn header_len(packet: Seq<u8>) -> int {
    declared_len(packet[0])
}

/// Whether the packet is long enough to hold the IPv4 header it declares
/// and a UDP header behind it.
pub open spec fn repairable(packet: Seq<u8>) -> bool {
    &&& packet.len() >= 20
    &&& header_len(packet) >= 20
    &&& header_len(packet) + 8 <= packet.len()
}

/// The packet with total length and UDP length written and both checksum
/// fields zeroed.
pub open spec fn with_lengths(packet: Seq<u8>) -> Seq<u8> {
    let ihl = header_len(packet);
    let total = packet.len() as int;
    packet.update(2, high_byte(total)).update(3, low_byte(total)).update(10, 0u8).update(
        11,
        0u8,
    ).update(ihl + 4, high_byte(total - ihl)).update(ihl + 5, low_byte(total - ihl)).update(
        ihl + 6,
        0u8,
    ).update(ihl + 7, 0u8)
}

/// The header checksum that belongs to the packet's lengths.
pub open spec fn header_checksum_of(packet: Seq<u8>) -> u16 {
    checksum16_spec(with_lengths(packet).subrange(0, header_len(packet)))
}

/// The UDP checksum that belongs to the packet's lengths and addresses.
pub open spec fn udp_checksum_of(packet: Seq<u8>) -> u16 {
    let zeroed = with_lengths(packet);
    udp_checksum_spec(
        zeroed.subrange(header_len(packet), packet.len() as int),
        zeroed.subrange(12, 16),
        zeroed.subrange(16, 20),
    )
}

/// The repaired packet: lengths rewritten, then both checksums computed
/// over the packet with zeroed checksum fields and written back. A packet
/// that is not `repairable` stays as it is.
pub open spec fn fix_udp_headers_spec(packet: Seq<u8>) -> Seq<u8> {
    if !repairable(packet) {
        packet
    } else {
        let ihl = header_len(packet);
        let header_sum = header_checksum_of(packet);
        let udp_sum = udp_checksum_of(packet);
        with_lengths(packet).update(10, high_byte(header_sum as int)).update(
            11,
            low_byte(header_sum as int),
        ).update(ihl + 6, high_byte(udp_sum as int)).update(ihl + 7, low_byte(udp_sum as int))
    }
}

/// Clears the DSCP bits of the first `len` bytes of `buf`, read as an IPv4
/// packet; the bytes behind them are not touched.
pub fn clear_diffserv_prefix(buf: &mut [u8], len: usize)
    requires
        len <= old(buf)@.len(),
    ensures
        final(buf)@ == clear_diffserv_spec(old(buf)@.take(len as int)) + old(buf)@.skip(
            len as int,
        ),
{
    if len >= 20 {
        let ecn = buf[1] & 0x03;
        buf[1] = ecn;
    }
}

/// Clears the DiffServ code point of an IPv4 packet and keeps its ECN bits.
pub fn clear_diffserv(packet: &mut [u8])
    ensures
        final(packet)@ == clear_diffserv_spec(old(packet)@),
{
    let len = packet.len();
    proof {
        lemma_prefix_and_rest(packet@, len as int);
    }
    clear_diffserv_prefix(packet, len);
}

/// Computes the UDP checksum of a segment sent between two IPv4 addresses.
///
/// Segments of up to `MAX_STACK_UDP` bytes are summed in a buffer on the
/// stack, longer ones in a buffer on the heap.
pub fn udp_checksum(udp: &[u8], src_ip: &[u8], dst_ip: &[u8]) -> (sum: u16)
    requires
        src_ip@.len() == 4,
        dst_ip@.len() == 4,
        udp@.len() + 12 <= usize::MAX,
    ensures
        sum == udp_checksum_spec(udp@, src_ip@, dst_ip@),
{
    let udp_len = udp.len();
    let ghost expected = pad_even(pseudo_header(src_ip@, dst_ip@, udp_len as int) + udp@);
    if udp_len <= MAX_STACK_UDP {
        let pseudo_len = 12 + udp_len + (udp_len % 2);
        let mut pseudo = [0u8; 2061];
        copy_into(&mut pseudo, 0, src_ip);
        copy_into(&mut pseudo, 4, dst_ip);
        pseudo[8] = 0;
        pseudo[9] = 17;
        pseudo[10] = high_byte_of(udp_len);
        pseudo[11] = low_byte_of(udp_len);
        copy_into(&mut pseudo, 12, udp);
        if udp_len % 2 != 0 {
            pseudo[12 + udp_len] = 0;
        }
        proof {
            assert(pseudo@.subrange(0, pseudo_len as int) =~= expected);
        }
        checksum16(&pseudo[0..pseudo_len])
    } else {
        let mut pseudo: Vec<u8> = Vec::with_capacity(12 + udp_len);
        pseudo.extend_from_slice(src_ip);
        pseudo.extend_from_slice(dst_ip);
        pseudo.push(0);
        pseudo.push(17);
        pseudo.push(high_byte_of(udp_len));
        pseudo.push(low_byte_of(udp_len));
        pseudo.extend_from_slice(udp);
        if pseudo.len() % 2 != 0 {
            pseudo.push(0);
        }
        proof {
            assert(pseudo@ =~= expected);
        }
        checksum16(pseudo.as_slice())
    }
}

/// Repairs the headers of the first `len` bytes of `buf`, read as an IPv4
/// packet that carries UDP; the bytes behind them are not touched.
pub fn fix_udp_headers_prefix(buf: &mut [u8], len: usize)
    requires
        len <= old(buf)@.len(),
    ensures
        final(buf)@ == fix_udp_headers_spec(old(buf)@.take(len as int)) + old(buf)@.skip(
            len as int,
        ),
{
    let ghost packet = buf@.take(len as int);
    proof {
        lemma_prefix_and_rest(buf@, len as int);
    }
    if len < 20 {
        return ;
    }
    let ihl = ((buf[0] & 0x0f) as usize) * 4;
    proof {
        lemma_declared_len_bound(buf@[0]);
        assert(packet[0] == buf@[0]);
    }
    if ihl < 20 || ihl + 8 > len {
        return ;
    }
    put(buf, len, 2, high_byte_of(len));
    put(buf, len, 3, low_byte_of(len));
    put(buf, len, 10, 0);
    put(buf, len, 11, 0);
    proof {
        let current = buf@.take(len as int);
        assert(current.subrange(0, ihl as int) =~= with_lengths(packet).subrange(0, ihl as int));
        assert(buf@.subrange(0, ihl as int) =~= current.subrange(0, ihl as int));
    }
    let csum = checksum16(&buf[0..ihl]);
    put(buf, len, 10, high_byte_of(csum as usize));
    put(buf, len, 11, low_byte_of(csum as usize));

    let udp_len = len - ihl;
    put(buf, len, ihl + 4, high_byte_of(udp_len));
    put(buf, len, ihl + 5, low_byte_of(udp_len));
    put(buf, len, ihl + 6, 0);
    put(buf, len, ihl + 7, 0);
    proof {
        let zeroed = with_lengths(packet);
        let current = buf@.take(len as int);
        assert(current.subrange(ihl as int, len as int) =~= zeroed.subrange(
            ihl as int,
            len as int,
        ));
        assert(current.subrange(12, 16) =~= zeroed.subrange(12, 16));
        assert(current.subrange(16, 20) =~= zeroed.subrange(16, 20));
        assert(buf@.subrange(ihl as int, len as int) =~= current.subrange(
            ihl as int,
            len as int,
        ));
        assert(buf@.subrange(12, 16) =~= current.subrange(12, 16));
        assert(buf@.subrange(16, 20) =~= current.subrange(16, 20));
    }
    let sum = udp_checksum(&buf[ihl..len], &buf[12..16], &buf[16..20]);
    put(buf, len, ihl + 6, high_byte_of(sum as usize));
    put(buf, len, ihl + 7, low_byte_of(sum as usize));
    proof {
        lemma_repair_steps(packet, csum, sum);
        lemma_prefix_and_rest(buf@, len as int);
    }
}

/// Repairs an IPv4 packet that carries UDP: total length, header
/// checksum, UDP length and UDP checksum. Does nothing to a packet that is
/// too short for the header it declares.
pub fn fix_udp_headers(packet: &mut [u8])
    ensures
        final(packet)@ == fix_udp_headers_spec(old(packet)@),
{
    let len = packet.len();
    proof {
        lemma_prefix_and_rest(packet@, len as int);
    }
    fix_udp_headers_prefix(packet, len);
}

/// The order in which the fields are written does not matter: writing the
/// header checksum before the UDP fields gives the repaired packet.
proof fn lemma_repair_steps(packet: Seq<u8>, header_sum: u16, udp_sum: u16)
    requires
        repairable(packet),
        header_sum == header_checksum_of(packet),
        udp_sum == udp_checksum_of(packet),
    ensures
        ({
            let ihl = header_len(packet);
            let total = packet.len() as int;
            packet.update(2, high_byte(total)).update(3, low_byte(total)).update(10, 0u8).update(
                11,
                0u8,
            ).update(10, high_byte(header_sum as int)).update(11, low_byte(header_sum as int))
                .update(ihl + 4, high_byte(total - ihl)).update(ihl + 5, low_byte(total - ihl))
                .update(ihl + 6, 0u8).update(ihl + 7, 0u8).update(
                ihl + 6,
                high_byte(udp_sum as int),
            ).update(ihl + 7, low_byte(udp_sum as int))
        }) =~= fix_udp_headers_spec(packet),
{
}

/// A declared header length is at most 60 bytes.
pub proof fn lemma_declared_len_bound(first: u8)
    ensures
        0 <= declared_len(first) <= 60,
{
    assert(first & 0x0f <= 15) by (bit_vector);
}

/// Repairing a packet twice gives the same bytes as repairing it once.
pub proof fn lemma_fix_udp_headers_idempotent(packet: Seq<u8>)
    ensures
        fix_udp_headers_spec(fix_udp_headers_spec(packet)) == fix_udp_headers_spec(packet),
{
    if repairable(packet) {
        let once = fix_udp_headers_spec(packet);
        assert(once[0] == packet[0]);
        assert(with_lengths(once) =~= with_lengths(packet));
        assert(fix_udp_headers_spec(once) =~= once);
    }
}

/// Repair changes nothing but the two length fields and the two checksum
/// fields.
pub proof fn lemma_fix_udp_headers_frame(packet: Seq<u8>, index: int)
    requires
        0 <= index < packet.len(),
        index != 2 && index != 3 && index != 10 && index != 11,
        !(header_len(packet) + 4 <= index < header_len(packet) + 8),
    ensures
        fix_udp_headers_spec(packet).len() == packet.len(),
        fix_udp_headers_spec(packet)[index] == packet[index],
{
}

/// A repaired packet passes the checks of a receiver: the folded word sum
/// of its IPv4 header is `0xffff`, and so is that of its pseudo-header
/// followed by its UDP segment. Its length fields hold the packet's length
/// and the segment's length.
pub proof fn lemma_fix_udp_headers_checksums_verify(packet: Seq<u8>)
    requires
        repairable(packet),
    ensures
        ({
            let fixed = fix_udp_headers_spec(packet);
            let ihl = header_len(packet);
            let total = packet.len() as int;
            &&& fixed.len() == total
            &&& fixed[2] == high_byte(total) && fixed[3] == low_byte(total)
            &&& fixed[ihl + 4] == high_byte(total - ihl) && fixed[ihl + 5] == low_byte(
                total - ihl,
            )
            &&& fold_carries(word_sum(fixed.subrange(0, ihl))) == 0xffff
            &&& fold_carries(
                word_sum(
                    pseudo_header(fixed.subrange(12, 16), fixed.subrange(16, 20), total - ihl)
                        + fixed.subrange(ihl, total),
                ),
            ) == 0xffff
        }),
{
    let fixed = fix_udp_headers_spec(packet);
    let ihl = header_len(packet);
    let total = packet.len() as int;
    let zeroed = with_lengths(packet);
    lemma_declared_len_bound(packet[0]);

    let header = zeroed.subrange(0, ihl);
    let header_sum = header_checksum_of(packet) as int;
    lemma_checksum_verifies(header, 10);
    assert(fixed.subrange(0, ihl) =~= header.update(10, high_byte(header_sum)).update(
        11,
        low_byte(header_sum),
    ));

    let src = zeroed.subrange(12, 16);
    let dst = zeroed.subrange(16, 20);
    let segment = zeroed.subrange(ihl, total);
    let summed = pseudo_header(src, dst, total - ihl) + segment;
    let udp_sum = udp_checksum_of(packet) as int;
    lemma_checksum16_pad_even(summed);
    lemma_checksum_verifies(summed, 18);
    assert(fixed.subrange(12, 16) =~= src);
    assert(fixed.subrange(16, 20) =~= dst);
    assert(pseudo_header(src, dst, total - ihl) + fixed.subrange(ihl, total) =~= summed.update(
        18,
        high_byte(udp_sum),
    ).update(19, low_byte(udp_sum)));
}

/// Repair reads nothing of the fields it writes: two packets of equal
/// length that agree outside the length and checksum fields are repaired
/// to the same bytes.
pub proof fn lemma_fix_udp_headers_ignores_fields(first: Seq<u8>, second: Seq<u8>)
    requires
        repairable(first),
        first.len() == second.len(),
        forall|i: int|
            0 <= i < first.len() && i != 2 && i != 3 && i != 10 && i != 11 && !(header_len(first)
                + 4 <= i < header_len(first) + 8) ==> first[i] == second[i],
    ensures
        fix_udp_headers_spec(first) == fix_udp_headers_spec(second),
{
    assert(first[0] == second[0]);
    assert(with_lengths(first) =~= with_lengths(second));
    assert(fix_udp_headers_spec(first) =~= fix_udp_headers_spec(second));
}

} // verus!
