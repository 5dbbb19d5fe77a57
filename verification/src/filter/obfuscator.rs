//! The packet transform: on egress two header regions of the WireGuard
//! payload are encrypted, random ballast is inserted and a nonce appended;
//! on ingress all of it is undone.

use vstd::prelude::*;
use rand::rngs::SmallRng;
use crate::cipher::randomiser::fill_nonce;
use crate::cipher::{CipherImpl, CipherModel, NONCE_LEN};
use crate::config::{CipherMode, FilterConfig};
use crate::filter::keepalive::{
    is_keepalive_spec, DropperState, KeepaliveDropper, PacketDecision,
};
use crate::filter::round_trip::lemma_obfuscated_keeps_draws;
use crate::netutils::common::{copy_into, overwrite};
use crate::netutils::{ipv4, ipv6};
use crate::randomiser::{fill_random_range, random_in_range};

verus! {

/// Length of the MAC2 region at the end of a WireGuard datagram.
pub const MAC2_LEN: usize = 16;

/// Largest ballast that is ever inserted.
pub const BALLAST_LEN_MAX: usize = 65;

/// Offset of the WireGuard payload: behind the IPv4 header that the packet
/// declares and the UDP header, or behind the fixed IPv6 header and the UDP
/// header. `None` for an empty packet or another IP version.
pub open spec fn wg_start(packet: Seq<u8>) -> Option<int> {
    if packet.len() == 0 {
        None
    } else if packet[0] >> 4 == 4 {
        Some(ipv4::header_len(packet) + 8)
    } else if packet[0] >> 4 == 6 {
        Some(48)
    } else {
        None
    }
}

/// Whether the packet is long enough to carry a header region and a MAC2
/// region behind its headers.
pub open spec fn carries_wireguard(packet: Seq<u8>) -> bool {
    wg_start(packet) matches Some(start) && packet.len() >= start + 32
}

/// The largest ballast that fits under the MTU, at most 65 bytes.
pub open spec fn max_ballast(mtu: int, len: int) -> int {
    let room = mtu - len - 13;
    if room < 0 {
        0
    } else if room > 65 {
        65
    } else {
        room
    }
}

/// Ballast lengths that may be drawn: 3 up to the largest that fits, or
/// none at all where fewer than 3 bytes fit.
pub open spec fn allowed_ballast(mtu: int, len: int, ballast_len: int) -> bool {
    if max_ballast(mtu, len) >= 3 {
        3 <= ballast_len <= max_ballast(mtu, len)
    } else {
        ballast_len == 0
    }
}

/// The 33 bytes that are encrypted: header region, ballast length, MAC2.
pub open spec fn plain_block(packet: Seq<u8>, start: int, ballast_len: int) -> Seq<u8> {
    packet.subrange(start, start + 16) + seq![ballast_len as u8] + packet.subrange(
        packet.len() - 16,
        packet.len() as int,
    )
}

/// The packet with its header region replaced by the first 16 bytes of
/// `encrypted`, and its MAC2 region by the ballast, the rest of `encrypted`
/// and the nonce.
pub open spec fn sealed(
    packet: Seq<u8>,
    start: int,
    encrypted: Seq<u8>,
    ballast: Seq<u8>,
    nonce: Seq<u8>,
) -> Seq<u8> {
    overwrite(packet.take(packet.len() - 16), start, encrypted.take(16)) + ballast
        + encrypted.skip(16) + nonce
}

/// Header repair on egress: IPv4 packets lose their DSCP bits and get
/// lengths and checksums rewritten, IPv6 packets get lengths and checksum
/// rewritten.
pub open spec fn egress_repaired(packet: Seq<u8>) -> Seq<u8> {
    if packet.len() == 0 {
        packet
    } else if packet[0] >> 4 == 4 {
        ipv4::fix_udp_headers_spec(ipv4::clear_diffserv_spec(packet))
    } else if packet[0] >> 4 == 6 {
        ipv6::fix_udp_headers_spec(packet)
    } else {
        packet
    }
}

/// Header repair on ingress: lengths and checksums are rewritten.
pub open spec fn ingress_repaired(packet: Seq<u8>) -> Seq<u8> {
    if packet.len() == 0 {
        packet
    } else if packet[0] >> 4 == 4 {
        ipv4::fix_udp_headers_spec(packet)
    } else if packet[0] >> 4 == 6 {
        ipv6::fix_udp_headers_spec(packet)
    } else {
        packet
    }
}

/// The obfuscated form of a packet that `carries_wireguard`, for a given
/// nonce and ballast.
pub open spec fn obfuscated(
    packet: Seq<u8>,
    key: Seq<u8>,
    nonce: Seq<u8>,
    mode: CipherMode,
    fast_available: bool,
    ballast: Seq<u8>,
) -> Seq<u8> {
    let start = wg_start(packet)->0;
    let cipher = CipherModel::fresh(key, nonce, mode, fast_available);
    egress_repaired(
        sealed(
            packet,
            start,
            cipher.xor(plain_block(packet, start, ballast.len() as int)),
            ballast,
            nonce,
        ),
    )
}

/// Whether the packet is longer than any packet without obfuscation data
/// behind its headers: header region, MAC2, ballast length and nonce take
/// 45 bytes.
pub open spec fn may_be_obfuscated(packet: Seq<u8>) -> bool {
    wg_start(packet) matches Some(start) && packet.len() > start + 45
}

/// The 33 encrypted bytes of an obfuscated packet: the header region, and
/// the 17 bytes in front of the nonce.
pub open spec fn cipher_block(packet: Seq<u8>, start: int) -> Seq<u8> {
    packet.subrange(start, start + 16) + packet.subrange(
        packet.len() - 29,
        packet.len() - 12,
    )
}

/// The decrypted block of an obfuscated packet, the nonce being its last
/// 12 bytes.
pub open spec fn opened_block(
    packet: Seq<u8>,
    key: Seq<u8>,
    mode: CipherMode,
    fast_available: bool,
) -> Seq<u8> {
    let nonce = packet.subrange(packet.len() - 12, packet.len() as int);
    CipherModel::fresh(key, nonce, mode, fast_available).xor(
        cipher_block(packet, wg_start(packet)->0),
    )
}

/// The packet after deobfuscation, and its new length. The bytes behind
/// the new length are what is left of the obfuscation data. A packet that
/// is too short, or whose ballast length does not fit into it, comes back
/// unchanged.
pub open spec fn deobfuscated(
    packet: Seq<u8>,
    key: Seq<u8>,
    mode: CipherMode,
    fast_available: bool,
) -> (Seq<u8>, int) {
    if !may_be_obfuscated(packet) {
        (packet, packet.len() as int)
    } else {
        let start = wg_start(packet)->0;
        let block = opened_block(packet, key, mode, fast_available);
        let ballast_len = block[16] as int;
        if packet.len() < ballast_len + 45 {
            (packet, packet.len() as int)
        } else {
            let new_len = packet.len() - 13 - ballast_len;
            let restored = overwrite(
                overwrite(packet, start, block.take(16)),
                new_len - 16,
                block.skip(17),
            );
            (ingress_repaired(restored.take(new_len)) + restored.skip(new_len), new_len)
        }
    }
}

/// Whether the first `len` bytes of a buffer are obfuscated at all: a
/// packet that is empty, longer than the MTU, of another IP version or too
/// short to carry WireGuard passes through unchanged.
pub open spec fn transformable(packet: Seq<u8>, mtu: int) -> bool {
    &&& 1 <= packet.len() <= mtu
    &&& carries_wireguard(packet)
}

/// What a call of `obfuscate_wg_packet` may have done, the dropper having
/// given `decision` on the payload: a dropped packet and a packet that no
/// longer fits the buffer leave the buffer as it was and give `None`; any
/// other packet is obfuscated with the nonce and the ballast that are found
/// in the buffer afterwards.
pub open spec fn obfuscate_outcome(
    before: Seq<u8>,
    len: int,
    config: FilterConfig,
    fast_available: bool,
    decision: PacketDecision,
    after: Seq<u8>,
    result: Option<usize>,
) -> bool {
    let packet = before.take(len);
    let mtu = config.mtu as int;
    match decision {
        PacketDecision::Drop => result is None && after == before,
        PacketDecision::Allow => match result {
            None => after == before && len + 13 + max_ballast(mtu, len) > before.len(),
            Some(new_len) => {
                let ballast_len = new_len - len - 13;
                &&& allowed_ballast(mtu, len, ballast_len)
                &&& new_len <= before.len()
                &&& len + 13 <= mtu ==> new_len <= mtu
                &&& after == obfuscated(
                    packet,
                    config.key@,
                    after.subrange(new_len - 12, new_len as int),
                    config.mode,
                    fast_available,
                    after.subrange(len - 16, len - 16 + ballast_len),
                ) + before.skip(new_len as int)
            },
        },
    }
}

/// What a call of `obfuscate_wg_packet` on the first `len` bytes of a
/// buffer may have done. A packet that is not `transformable` comes back
/// unchanged with its length, and the dropper is not asked. For any other
/// packet the dropper takes one step on the WireGuard payload, at some
/// clock reading and with some valid draw, and its verdict decides as
/// `obfuscate_outcome` says.
pub open spec fn egress_outcome(
    before: Seq<u8>,
    len: int,
    config: FilterConfig,
    fast_available: bool,
    state: DropperState,
    next_state: DropperState,
    after: Seq<u8>,
    result: Option<usize>,
) -> bool {
    let packet = before.take(len);
    if !transformable(packet, config.mtu as int) {
        result == Some(len as usize) && after == before && next_state == state
    } else {
        let payload = packet.skip(wg_start(packet)->0);
        exists|now_ms: u64, delay_ms: u64, burst: u8|
            {
                let next = #[trigger] state.step(
                    is_keepalive_spec(payload),
                    now_ms,
                    delay_ms,
                    burst,
                );
                &&& state.valid_draw(delay_ms, burst)
                &&& next_state == next.0
                &&& obfuscate_outcome(
                    before,
                    len,
                    config,
                    fast_available,
                    next.1,
                    after,
                    result,
                )
            }
    }
}

/// Whether `obfuscate_wg_packet` owes a new length: the packet is
/// `transformable`, its payload is no keepalive, and the largest ballast
/// that may be drawn still fits the buffer.
pub open spec fn egress_owed(before: Seq<u8>, len: int, mtu: int) -> bool {
    let packet = before.take(len);
    &&& transformable(packet, mtu)
    &&& !is_keepalive_spec(packet.skip(wg_start(packet)->0))
    &&& len + 13 + max_ballast(mtu, len) <= before.len()
}

/// Finds the offset of the WireGuard payload in the first `len` bytes of
/// `buf`.
fn find_wg_start(buf: &[u8], len: usize) -> (start: Option<usize>)
    requires
        len <= buf@.len(),
    ensures
        start matches Some(offset) ==> wg_start(buf@.take(len as int)) == Some(offset as int)
            && offset <= 68,
        start is None ==> wg_start(buf@.take(len as int)) is None,
{
    if len < 1 {
        return None;
    }
    let first = buf[0];
    let ip_version = first >> 4;
    proof {
        assert(buf@.take(len as int)[0] == first);
        ipv4::lemma_declared_len_bound(first);
    }
    if ip_version == 4 {
        Some(((first & 0x0f) as usize) * 4 + 8)
    } else if ip_version == 6 {
        Some(48)
    } else {
        None
    }
}

/// Repairs the headers of the first `len` bytes of `buf` on egress.
fn repair_egress(buf: &mut [u8], len: usize)
    requires
        len <= old(buf)@.len(),
    ensures
        final(buf)@ == egress_repaired(old(buf)@.take(len as int)) + old(buf)@.skip(len as int),
{
    proof {
        assert(buf@ =~= buf@.take(len as int) + buf@.skip(len as int));
    }
    if len == 0 {
        return ;
    }
    let ghost packet = buf@.take(len as int);
    let ghost rest = buf@.skip(len as int);
    let ip_version = buf[0] >> 4;
    if ip_version == 4 {
        ipv4::clear_diffserv_prefix(buf, len);
        proof {
            let cleared = ipv4::clear_diffserv_spec(packet);
            assert(buf@.take(len as int) =~= cleared);
            assert(buf@.skip(len as int) =~= rest);
        }
        ipv4::fix_udp_headers_prefix(buf, len);
    } else if ip_version == 6 {
        ipv6::fix_udp_headers_prefix(buf, len);
    }
}

/// Repairs the headers of the first `len` bytes of `buf` on ingress.
fn repair_ingress(buf: &mut [u8], len: usize)
    requires
        len <= old(buf)@.len(),
    ensures
        final(buf)@ == ingress_repaired(old(buf)@.take(len as int)) + old(buf)@.skip(
            len as int,
        ),
{
    proof {
        assert(buf@ =~= buf@.take(len as int) + buf@.skip(len as int));
    }
    if len == 0 {
        return ;
    }
    let ip_version = buf[0] >> 4;
    if ip_version == 4 {
        ipv4::fix_udp_headers_prefix(buf, len);
    } else if ip_version == 6 {
        ipv6::fix_udp_headers_prefix(buf, len);
    }
}

/// Obfuscates the first `len` bytes of `buf` with a given nonce and given
/// ballast, and returns the new length.
pub fn obfuscate_with(
    buf: &mut [u8],
    len: usize,
    config: &FilterConfig,
    fast_available: bool,
    ballast: &[u8],
    nonce: &[u8; NONCE_LEN],
) -> (new_len: usize)
    requires
        len <= old(buf)@.len(),
        carries_wireguard(old(buf)@.take(len as int)),
        ballast@.len() <= 255,
        len + 13 + ballast@.len() <= old(buf)@.len(),
    ensures
        new_len == len + 13 + ballast@.len(),
        final(buf)@ == obfuscated(
            old(buf)@.take(len as int),
            config.key@,
            nonce@,
            config.mode,
            fast_available,
            ballast@,
        ) + old(buf)@.skip(new_len as int),
{
    let ghost packet = buf@.take(len as int);
    let ghost before = buf@;
    let capacity = buf.len();
    let ballast_len = ballast.len();
    let new_len = len + 1 + ballast_len + NONCE_LEN;
    let first = buf[0];
    proof {
        assert(packet[0] == first);
        ipv4::lemma_declared_len_bound(first);
    }
    let start = if first >> 4 == 4 {
        ((first & 0x0f) as usize) * 4 + 8
    } else {
        48
    };

    let mut block = [0u8; 33];
    copy_into(&mut block, 0, &buf[start..start + 16]);
    block[16] = ballast_len as u8;
    copy_into(&mut block, 17, &buf[len - MAC2_LEN..len]);
    proof {
        assert(block@ =~= plain_block(packet, start as int, ballast_len as int));
    }

    let mut cipher = CipherImpl::new(&config.key, nonce, &config.mode, fast_available);
    cipher.xor(&mut block);
    let ghost encrypted = block@;

    copy_into(buf, start, &block[0..16]);
    let mut offset = len - MAC2_LEN;
    copy_into(buf, offset, ballast);
    offset += ballast_len;
    buf[offset] = block[16];
    offset += 1;
    copy_into(buf, offset, &block[17..33]);
    offset += MAC2_LEN;
    copy_into(buf, offset, nonce);
    proof {
        let body = sealed(packet, start as int, encrypted, ballast@, nonce@);
        assert(buf@.take(new_len as int) =~= body);
        assert(buf@.skip(new_len as int) =~= before.skip(new_len as int));
    }
    repair_egress(buf, new_len);
    new_len
}

/// Draws the length of the ballast for a packet of `len` bytes.
fn draw_ballast_len(mtu: usize, len: usize, rng: &mut SmallRng) -> (ballast_len: usize)
    ensures
        allowed_ballast(mtu as int, len as int, ballast_len as int),
        ballast_len <= BALLAST_LEN_MAX,
{
    let max_insert = mtu.saturating_sub(len);
    let room = max_insert.saturating_sub(1 + NONCE_LEN);
    let max_ballast = if room < BALLAST_LEN_MAX {
        room
    } else {
        BALLAST_LEN_MAX
    };
    if max_ballast >= 3 {
        random_in_range(rng, 3, max_ballast)
    } else {
        0
    }
}

/// Obfuscates the first `len` bytes of `buf` in place: asks the dropper,
/// draws the ballast length, the nonce and the ballast, and transforms the
/// packet. Returns the new length, or `None` where the packet is to be
/// dropped.
pub fn obfuscate_wg_packet(
    buf: &mut [u8],
    len: usize,
    config: &FilterConfig,
    dropper: &mut KeepaliveDropper,
    rng: &mut SmallRng,
    fast_available: bool,
) -> (result: Option<usize>)
    requires
        len <= old(buf)@.len(),
        old(dropper)@.wf(),
    ensures
        final(buf)@.len() == old(buf)@.len(),
        final(dropper)@.wf(),
        final(dropper).epoch == old(dropper).epoch,
        egress_outcome(
            old(buf)@,
            len as int,
            *config,
            fast_available,
            old(dropper)@,
            final(dropper)@,
            final(buf)@,
            result,
        ),
        egress_owed(old(buf)@, len as int, config.mtu as int) ==> result is Some,
{
    let ghost before = buf@;
    let ghost packet = buf@.take(len as int);
    let capacity = buf.len();
    if len < 1 || len > config.mtu {
        return Some(len);
    }
    let start = match find_wg_start(buf, len) {
        Some(offset) => offset,
        None => { return Some(len); },
    };
    if len < start + 32 {
        return Some(len);
    }
    proof {
        assert(buf@.subrange(start as int, len as int) =~= packet.skip(start as int));
    }
    let ghost state = dropper@;
    let decision = dropper.filter_packet(&buf[start..len]);
    let ghost keepalive = is_keepalive_spec(packet.skip(start as int));
    let ghost (now_ms, delay_ms, burst): (u64, u64, u8) = choose|
        now_ms: u64,
        delay_ms: u64,
        burst: u8,
    |
        state.valid_draw(delay_ms, burst) && (dropper@, decision) == #[trigger] state.step(
            keepalive,
            now_ms,
            delay_ms,
            burst,
        );
    match decision {
        PacketDecision::Drop => {
            proof {
                assert(obfuscate_outcome(
                    before,
                    len as int,
                    *config,
                    fast_available,
                    state.step(keepalive, now_ms, delay_ms, burst).1,
                    buf@,
                    None,
                ));
            }
            return None;
        },
        PacketDecision::Allow => {},
    }

    let ballast_len = draw_ballast_len(config.mtu, len, rng);
    if capacity - len < 1 + NONCE_LEN + ballast_len {
        proof {
            assert(obfuscate_outcome(
                before,
                len as int,
                *config,
                fast_available,
                state.step(keepalive, now_ms, delay_ms, burst).1,
                buf@,
                None,
            ));
        }
        return None;
    }
    let mut nonce = [0u8; NONCE_LEN];
    fill_nonce(&mut nonce, rng);
    let mut ballast = [0u8; BALLAST_LEN_MAX];
    fill_random_range(&mut ballast, 0, ballast_len, rng);

    let new_len = obfuscate_with(
        buf,
        len,
        config,
        fast_available,
        &ballast[0..ballast_len],
        &nonce,
    );
    proof {
        let drawn = ballast@.subrange(0, ballast_len as int);
        let out = obfuscated(
            packet,
            config.key@,
            nonce@,
            config.mode,
            fast_available,
            drawn,
        );
        lemma_obfuscated_keeps_draws(
            packet,
            config.key@,
            nonce@,
            config.mode,
            fast_available,
            drawn,
        );
        assert(buf@.subrange(new_len - 12, new_len as int) =~= out.subrange(
            new_len - 12,
            new_len as int,
        ));
        assert(buf@.subrange(len - 16, len - 16 + ballast_len) =~= out.subrange(
            len - 16,
            len - 16 + ballast_len,
        ));
        assert(obfuscate_outcome(
            before,
            len as int,
            *config,
            fast_available,
            state.step(keepalive, now_ms, delay_ms, burst).1,
            buf@,
            Some(new_len),
        ));
    }
    Some(new_len)
}

/// Removes the obfuscation from the first `len` bytes of `buf` in place
/// and returns the new length. A packet that carries no obfuscation data,
/// or whose ballast length does not fit into it, is left untouched.
pub fn deobfuscate_prefix(
    buf: &mut [u8],
    len: usize,
    config: &FilterConfig,
    fast_available: bool,
) -> (new_len: usize)
    requires
        len <= old(buf)@.len(),
    ensures
        new_len == deobfuscated(
            old(buf)@.take(len as int),
            config.key@,
            config.mode,
            fast_available,
        ).1,
        new_len <= len,
        final(buf)@ == deobfuscated(
            old(buf)@.take(len as int),
            config.key@,
            config.mode,
            fast_available,
        ).0 + old(buf)@.skip(len as int),
{
    let ghost before = buf@;
    let ghost packet = buf@.take(len as int);
    let ghost rest = buf@.skip(len as int);
    proof {
        assert(before =~= packet + rest);
    }
    let start = match find_wg_start(buf, len) {
        Some(offset) => offset,
        None => { return len; },
    };
    if len <= start + 45 {
        return len;
    }
    let nonce_offset = len - NONCE_LEN;
    let mut nonce = [0u8; NONCE_LEN];
    copy_into(&mut nonce, 0, &buf[nonce_offset..len]);
    let mut cipher = CipherImpl::new(&config.key, &nonce, &config.mode, fast_available);

    let offset = len - 1 - NONCE_LEN - MAC2_LEN;
    let mut block = [0u8; 33];
    copy_into(&mut block, 0, &buf[start..start + 16]);
    copy_into(&mut block, 16, &buf[offset..len - NONCE_LEN]);
    proof {
        assert(nonce@ =~= packet.subrange(len - 12, len as int));
        assert(block@ =~= cipher_block(packet, start as int));
    }
    cipher.xor(&mut block);
    let ghost opened = block@;

    let ballast_len = block[16] as usize;
    if len < ballast_len + 45 {
        return len;
    }
    let new_len = len - 1 - ballast_len - NONCE_LEN;
    copy_into(buf, start, &block[0..16]);
    copy_into(buf, new_len - MAC2_LEN, &block[17..33]);
    proof {
        let restored = overwrite(
            overwrite(packet, start as int, opened.take(16)),
            new_len - 16,
            opened.skip(17),
        );
        assert(buf@ =~= restored + rest);
        assert(buf@.take(new_len as int) =~= restored.take(new_len as int));
        assert(buf@.skip(new_len as int) =~= restored.skip(new_len as int) + rest);
    }
    repair_ingress(buf, new_len);
    proof {
        let restored = overwrite(
            overwrite(packet, start as int, opened.take(16)),
            new_len - 16,
            opened.skip(17),
        );
        assert(buf@ =~= (ingress_repaired(restored.take(new_len as int)) + restored.skip(
            new_len as int,
        )) + rest);
    }
    new_len
}

/// Removes the obfuscation from a packet in place and returns the length
/// of the packet that is left at the start of `buf`.
pub fn deobfuscate_wg_packet(buf: &mut [u8], config: &FilterConfig, fast_available: bool) -> (result:
    Option<usize>)
    ensures
        result == Some(
            deobfuscated(old(buf)@, config.key@, config.mode, fast_available).1 as usize,
        ),
        result->0 <= old(buf)@.len(),
        final(buf)@ == deobfuscated(old(buf)@, config.key@, config.mode, fast_available).0,
{
    let len = buf.len();
    proof {
        assert(buf@.take(len as int) =~= buf@);
        assert(buf@.skip(len as int) =~= Seq::<u8>::empty());
    }
    let new_len = deobfuscate_prefix(buf, len, config, fast_available);
    proof {
        let out = deobfuscated(old(buf)@, config.key@, config.mode, fast_available).0;
        assert(out + Seq::<u8>::empty() =~= out);
    }
    Some(new_len)
}

} // verus!
