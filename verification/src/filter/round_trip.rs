//! Why the transform can be undone: what header repair leaves alone, where
//! the parts of an obfuscated packet lie, and the round trip itself.

use vstd::prelude::*;
use crate::cipher::CipherModel;
use crate::config::CipherMode;
use crate::filter::obfuscator::{
    carries_wireguard, cipher_block, deobfuscated, egress_repaired, ingress_repaired, obfuscated,
    opened_block, plain_block, sealed, wg_start,
};
use crate::netutils::common::overwrite;
use crate::netutils::{ipv4, ipv6};

verus! {

/// Whether a packet with the given first byte has header repair write the
/// byte at `index`: the length and checksum fields, for an IPv4 packet only
/// where its header length is in order.
pub open spec fn header_field(first: u8, index: int) -> bool {
    let ihl = ipv4::declared_len(first);
    if first >> 4 == 4 {
        ihl >= 20 && (index == 2 || index == 3 || index == 10 || index == 11 || ihl + 4 <= index
            < ihl + 8)
    } else if first >> 4 == 6 {
        index == 4 || index == 5 || 44 <= index < 48
    } else {
        false
    }
}

/// The packet as egress repair sees it before it writes the header
/// fields: an IPv4 packet without its DSCP bits, any other as it is.
pub open spec fn dscp_cleared(packet: Seq<u8>) -> Seq<u8> {
    if packet.len() > 0 && packet[0] >> 4 == 4 {
        ipv4::clear_diffserv_spec(packet)
    } else {
        packet
    }
}

/// Outside the header fields, egress repair changes nothing but the DSCP
/// bits.
pub proof fn lemma_egress_repaired_outside_fields(packet: Seq<u8>)
    requires
        carries_wireguard(packet),
    ensures
        egress_repaired(packet).len() == packet.len(),
        egress_repaired(packet) == ingress_repaired(dscp_cleared(packet)),
        forall|i: int|
            0 <= i < packet.len() && !header_field(packet[0], i) ==> egress_repaired(packet)[i]
                == dscp_cleared(packet)[i],
{
    let first = packet[0];
    ipv4::lemma_declared_len_bound(first);
    if first >> 4 == 4 {
        let cleared = ipv4::clear_diffserv_spec(packet);
        assert(cleared[0] == first);
        assert forall|i: int|
            0 <= i < packet.len() && !header_field(first, i) implies egress_repaired(packet)[i]
            == cleared[i] by {
            if ipv4::repairable(cleared) {
                ipv4::lemma_fix_udp_headers_frame(cleared, i);
            }
        }
    } else {
        assert forall|i: int|
            0 <= i < packet.len() && !header_field(first, i) implies egress_repaired(packet)[i]
            == packet[i] by {
            ipv6::lemma_fix_udp_headers_frame(packet, i);
        }
    }
}

/// Ingress repair reads nothing of the header fields: two packets of equal
/// length that agree outside them are repaired to the same bytes.
pub proof fn lemma_ingress_repaired_ignores_fields(first: Seq<u8>, second: Seq<u8>)
    requires
        carries_wireguard(first),
        first.len() == second.len(),
        forall|i: int|
            0 <= i < first.len() && !header_field(first[0], i) ==> first[i] == second[i],
    ensures
        ingress_repaired(first) == ingress_repaired(second),
{
    let lead = first[0];
    ipv4::lemma_declared_len_bound(lead);
    assert(!header_field(lead, 0));
    assert(second[0] == lead);
    if lead >> 4 == 4 {
        if ipv4::repairable(first) {
            ipv4::lemma_fix_udp_headers_ignores_fields(first, second);
        } else {
            assert(!ipv4::repairable(second));
            assert(first =~= second);
        }
    } else {
        ipv6::lemma_fix_udp_headers_ignores_fields(first, second);
    }
}

/// Where the parts of a sealed packet lie.
pub proof fn lemma_sealed_layout(
    packet: Seq<u8>,
    start: int,
    encrypted: Seq<u8>,
    ballast: Seq<u8>,
    nonce: Seq<u8>,
)
    requires
        0 <= start,
        start + 32 <= packet.len(),
        encrypted.len() == 33,
        nonce.len() == 12,
    ensures
        ({
            let body = sealed(packet, start, encrypted, ballast, nonce);
            let len = packet.len() as int;
            let total = len + 13 + ballast.len();
            &&& body.len() == total
            &&& forall|i: int| 0 <= i < start ==> body[i] == packet[i]
            &&& forall|i: int| start + 16 <= i < len - 16 ==> body[i] == packet[i]
            &&& body.subrange(start, start + 16) == encrypted.take(16)
            &&& body.subrange(len - 16, total - 29) == ballast
            &&& body.subrange(total - 29, total - 12) == encrypted.skip(16)
            &&& body.subrange(total - 12, total) == nonce
        }),
{
    let body = sealed(packet, start, encrypted, ballast, nonce);
    let len = packet.len() as int;
    let total = len + 13 + ballast.len();
    assert(body.subrange(start, start + 16) =~= encrypted.take(16));
    assert(body.subrange(len - 16, total - 29) =~= ballast);
    assert(body.subrange(total - 29, total - 12) =~= encrypted.skip(16));
    assert(body.subrange(total - 12, total) =~= nonce);
}

/// The obfuscated packet holds the ballast behind what is kept of the
/// payload, and the nonce at its end.
pub proof fn lemma_obfuscated_keeps_draws(
    packet: Seq<u8>,
    key: Seq<u8>,
    nonce: Seq<u8>,
    mode: CipherMode,
    fast_available: bool,
    ballast: Seq<u8>,
)
    requires
        carries_wireguard(packet),
        nonce.len() == 12,
    ensures
        ({
            let out = obfuscated(packet, key, nonce, mode, fast_available, ballast);
            let len = packet.len() as int;
            &&& out.len() == len + 13 + ballast.len()
            &&& out[0] == packet[0]
            &&& out.subrange(len - 16, len - 16 + ballast.len()) == ballast
            &&& out.subrange(out.len() - 12, out.len() as int) == nonce
        }),
{
    let start = wg_start(packet)->0;
    let len = packet.len() as int;
    let total = len + 13 + ballast.len();
    let cipher = CipherModel::fresh(key, nonce, mode, fast_available);
    let encrypted = cipher.xor(plain_block(packet, start, ballast.len() as int));
    let body = sealed(packet, start, encrypted, ballast, nonce);
    let out = egress_repaired(body);
    let first = packet[0];
    ipv4::lemma_declared_len_bound(first);
    lemma_sealed_layout(packet, start, encrypted, ballast, nonce);
    assert(body[0] == first);
    assert(wg_start(body) == Some(start));
    lemma_egress_repaired_outside_fields(body);
    assert(!header_field(first, 0));
    assert forall|i: int| start <= i < total implies out[i] == body[i] by {
        assert(!header_field(first, i));
    }
    assert(out.subrange(len - 16, total - 29) =~= body.subrange(len - 16, total - 29));
    assert(out.subrange(total - 12, total) =~= body.subrange(total - 12, total));
}

/// What deobfuscation finds in an obfuscated packet: the offset of the
/// payload, the nonce, and behind the cipher the block that was encrypted.
pub proof fn lemma_obfuscated_opens(
    packet: Seq<u8>,
    key: Seq<u8>,
    nonce: Seq<u8>,
    mode: CipherMode,
    fast_available: bool,
    ballast: Seq<u8>,
)
    requires
        carries_wireguard(packet),
        nonce.len() == 12,
    ensures
        ({
            let out = obfuscated(packet, key, nonce, mode, fast_available, ballast);
            let start = wg_start(packet)->0;
            &&& out.len() == packet.len() + 13 + ballast.len()
            &&& out[0] == packet[0]
            &&& wg_start(out) == Some(start)
            &&& opened_block(out, key, mode, fast_available) == plain_block(
                packet,
                start,
                ballast.len() as int,
            )
            &&& forall|i: int|
                0 <= i < start && !header_field(packet[0], i) ==> out[i] == dscp_cleared(
                    packet,
                )[i]
            &&& forall|i: int| start + 16 <= i < packet.len() - 16 ==> out[i] == packet[i]
        }),
{
    let start = wg_start(packet)->0;
    let len = packet.len() as int;
    let total = len + 13 + ballast.len();
    let cipher = CipherModel::fresh(key, nonce, mode, fast_available);
    let plain = plain_block(packet, start, ballast.len() as int);
    let encrypted = cipher.xor(plain);
    let body = sealed(packet, start, encrypted, ballast, nonce);
    let out = egress_repaired(body);
    let first = packet[0];
    ipv4::lemma_declared_len_bound(first);
    lemma_sealed_layout(packet, start, encrypted, ballast, nonce);
    assert(body[0] == first);
    assert(wg_start(body) == Some(start));
    lemma_egress_repaired_outside_fields(body);
    assert forall|i: int| start <= i < total implies out[i] == body[i] by {
        assert(!header_field(first, i));
    }
    assert(!header_field(first, 0));
    assert(out.subrange(total - 12, total) =~= body.subrange(total - 12, total));
    assert(out.subrange(start, start + 16) =~= body.subrange(start, start + 16));
    assert(out.subrange(total - 29, total - 12) =~= body.subrange(total - 29, total - 12));
    assert(cipher_block(out, start) =~= encrypted);
    crate::cipher::lemma_xor_twice(cipher, plain);
    assert forall|i: int| 0 <= i < start && !header_field(first, i) implies out[i]
        == dscp_cleared(packet)[i] by {
        assert(dscp_cleared(body)[i] == dscp_cleared(packet)[i]);
    }
}

/// Deobfuscation of a packet from which the cipher opens `block`: the
/// length that is left, and the packet that is left, before its headers are
/// repaired.
proof fn lemma_deobfuscated_restores(
    sent: Seq<u8>,
    key: Seq<u8>,
    mode: CipherMode,
    fast_available: bool,
    start: int,
    len: int,
    block: Seq<u8>,
)
    requires
        wg_start(sent) == Some(start),
        opened_block(sent, key, mode, fast_available) == block,
        block.len() == 33,
        start + 32 <= len,
        sent.len() == len + 13 + block[16],
        sent.len() > start + 45,
    ensures
        deobfuscated(sent, key, mode, fast_available).1 == len,
        deobfuscated(sent, key, mode, fast_available).0.take(len) == ingress_repaired(
            overwrite(overwrite(sent, start, block.take(16)), len - 16, block.skip(17)).take(len),
        ),
{
    let restored = overwrite(overwrite(sent, start, block.take(16)), len - 16, block.skip(17));
    let kept = restored.take(len);
    let back = deobfuscated(sent, key, mode, fast_available);
    assert(back.0 == ingress_repaired(kept) + restored.skip(len));
    lemma_ingress_repaired_len(kept);
    assert(back.0.take(len) =~= ingress_repaired(kept));
}

/// The packet that deobfuscation restores agrees with the original outside
/// the header fields, the DSCP bits apart.
proof fn lemma_restored_agrees(packet: Seq<u8>, sent: Seq<u8>, start: int, ballast_len: int)
    requires
        carries_wireguard(packet),
        wg_start(packet) == Some(start),
        0 <= ballast_len,
        sent.len() == packet.len() + 13 + ballast_len,
        forall|i: int|
            0 <= i < start && !header_field(packet[0], i) ==> sent[i] == dscp_cleared(packet)[i],
        forall|i: int| start + 16 <= i < packet.len() - 16 ==> sent[i] == packet[i],
    ensures
        ({
            let block = plain_block(packet, start, ballast_len);
            let len = packet.len() as int;
            let kept = overwrite(
                overwrite(sent, start, block.take(16)),
                len - 16,
                block.skip(17),
            ).take(len);
            &&& kept.len() == len
            &&& forall|i: int|
                0 <= i < len && !header_field(packet[0], i) ==> dscp_cleared(packet)[i]
                    == kept[i]
        }),
{
    let first = packet[0];
    ipv4::lemma_declared_len_bound(first);
    let block = plain_block(packet, start, ballast_len);
    let len = packet.len() as int;
    let kept = overwrite(overwrite(sent, start, block.take(16)), len - 16, block.skip(17)).take(
        len,
    );
    let cleared = dscp_cleared(packet);
    assert forall|i: int| 0 <= i < len && !header_field(first, i) implies cleared[i]
        == kept[i] by {
        if i >= start {
            assert(cleared[i] == packet[i]);
        }
    }
}

/// Round trip: a packet that carries WireGuard and whose headers are
/// already in the form that egress repair gives comes back bit for bit from
/// obfuscation followed by deobfuscation with the same key, mode and
/// machine, whatever nonce and ballast were drawn. The one packet left out
/// is a payload of exactly 32 bytes obfuscated without ballast: it is no
/// longer than a packet without obfuscation data, and passes through
/// deobfuscation untouched.
pub proof fn lemma_round_trip(
    packet: Seq<u8>,
    key: Seq<u8>,
    nonce: Seq<u8>,
    mode: CipherMode,
    fast_available: bool,
    ballast: Seq<u8>,
)
    requires
        carries_wireguard(packet),
        egress_repaired(packet) == packet,
        nonce.len() == 12,
        ballast.len() <= 255,
        packet.len() > wg_start(packet)->0 + 32 || ballast.len() > 0,
    ensures
        ({
            let out = obfuscated(packet, key, nonce, mode, fast_available, ballast);
            let back = deobfuscated(out, key, mode, fast_available);
            &&& out.len() == packet.len() + 13 + ballast.len()
            &&& back.1 == packet.len()
            &&& back.0.take(packet.len() as int) == packet
        }),
{
    let start = wg_start(packet)->0;
    let len = packet.len() as int;
    let out = obfuscated(packet, key, nonce, mode, fast_available, ballast);
    let block = plain_block(packet, start, ballast.len() as int);
    let first = packet[0];
    ipv4::lemma_declared_len_bound(first);
    lemma_obfuscated_opens(packet, key, nonce, mode, fast_available, ballast);
    assert(block.len() == 33 && block[16] as int == ballast.len());
    lemma_deobfuscated_restores(out, key, mode, fast_available, start, len, block);
    lemma_restored_agrees(packet, out, start, ballast.len() as int);
    let kept = overwrite(overwrite(out, start, block.take(16)), len - 16, block.skip(17)).take(
        len,
    );
    let cleared = dscp_cleared(packet);
    assert(cleared[0] == first);
    assert(wg_start(cleared) == Some(start));
    lemma_ingress_repaired_ignores_fields(cleared, kept);
    lemma_egress_repaired_outside_fields(packet);
}

/// Header repair on ingress keeps the length.
pub proof fn lemma_ingress_repaired_len(packet: Seq<u8>)
    ensures
        ingress_repaired(packet).len() == packet.len(),
{
}

} // verus!
