use nf_wgobfs::config::{ascii_to_key, CipherMode, Direction, FilterConfig};
use nf_wgobfs::filter::keepalive::KeepaliveDropper;
use nf_wgobfs::filter::obfuscator::{
    deobfuscate_prefix, deobfuscate_wg_packet, obfuscate_wg_packet, obfuscate_with,
};
use rand::rngs::SmallRng;
use rand::SeedableRng;

const FIXTURE: [u8; 156] = [
    0x45, 0x00, 0x00, 0x9c, 0x5e, 0x1c, 0x00, 0x00, 0x40, 0x11, 0x51, 0xf0, 0xd5, 0xa5, 0x54, 0x5d,
    0x59, 0xdf, 0x46, 0x63, 0xca, 0x6c, 0xca, 0x6c, 0x00, 0x88, 0x50, 0x44, 0x04, 0x00, 0x00, 0x00,
    0x99, 0x65, 0x38, 0xec, 0x1c, 0x00, 0x00, 0x00, 0x00, 0x00, 0x00, 0x00, 0x61, 0x05, 0x7b, 0x7f,
    0x1f, 0xc8, 0x19, 0x2b, 0x8e, 0xa2, 0xd7, 0x7a, 0xd0, 0x74, 0xfa, 0x2d, 0x0f, 0x8d, 0x1b, 0xf7,
    0x30, 0x0d, 0xef, 0xfa, 0xa5, 0x9d, 0x0a, 0xc4, 0x8b, 0xf4, 0x00, 0xec, 0x28, 0xff, 0x83, 0x64,
    0x75, 0xad, 0x54, 0xc8, 0x1c, 0x3f, 0x16, 0xc7, 0xcf, 0x8c, 0xbb, 0x7e, 0x27, 0xcd, 0x65, 0x66,
    0x08, 0x3f, 0x2b, 0x65, 0xda, 0xb3, 0x67, 0xaa, 0x7c, 0xde, 0xc9, 0xf7, 0x53, 0x3e, 0x37, 0xa2,
    0x58, 0x6d, 0x97, 0x59, 0x56, 0xfe, 0xfb, 0xa9, 0x95, 0x60, 0x00, 0x80, 0x10, 0x2f, 0xb1, 0x94,
    0xf0, 0xc1, 0x5d, 0x2b, 0xfd, 0x84, 0x0f, 0xf9, 0x99, 0x7f, 0x27, 0xb7, 0x51, 0x1d, 0xe1, 0xe7,
    0x00, 0x95, 0x4c, 0xe4, 0x27, 0xd9, 0x46, 0x2c, 0xdf, 0xda, 0xff, 0x35,
];

fn rule(mtu: usize, mode: CipherMode) -> FilterConfig {
    FilterConfig {
        mtu,
        key: ascii_to_key("secretkey"),
        queue_num: 0,
        direction: Direction::Out,
        mode,
    }
}

/// Tests obfuscation and deobfuscation round-trip for a sample packet.
///
/// This test ensures that after obfuscating and then deobfuscating a packet,
/// the result matches the original input.
#[test]
fn test_obfuscate_and_deobfuscate() {
    let before: [u8; 156] = FIXTURE;

    for fast_available in [true, false] {
        let mut config = FilterConfig {
            mtu: 256,
            key: [0u8; 32],
            queue_num: 0,
            direction: Direction::Out,
            mode: CipherMode::Auto,
        };
        let mut dropper = KeepaliveDropper::new(0, 9);
        let mut rng = SmallRng::from_seed([0u8; 32]);

        let mut buf = [0u8; 256];
        buf[..before.len()].copy_from_slice(&before);
        config.direction = Direction::Out;
        config.key = ascii_to_key("secretkey");

        let obf_len = obfuscate_wg_packet(
            &mut buf,
            before.len(),
            &config,
            &mut dropper,
            &mut rng,
            fast_available,
        )
        .expect("obfuscation failed");

        config.direction = Direction::In;
        let deobf_len = deobfuscate_wg_packet(&mut buf[..obf_len], &config, fast_available)
            .expect("deobfuscation failed");

        assert_eq!(&buf[..deobf_len], &before[..], "deobfuscated != original");
    }
}

const NONCE: [u8; 12] = [1, 2, 3, 4, 5, 6, 7, 8, 9, 10, 11, 12];

const SEALED_TAIL_FAST: [u8; 34] = [
    176, 177, 178, 179, 180, 127, 182, 153, 159, 100, 255, 159, 178, 171, 114, 49, 124, 153, 57,
    126, 18, 51, 1, 2, 3, 4, 5, 6, 7, 8, 9, 10, 11, 12,
];

const SEALED_TAIL_FALLBACK: [u8; 34] = [
    176, 177, 178, 179, 180, 195, 30, 243, 112, 126, 161, 176, 151, 106, 32, 207, 185, 153, 247,
    104, 247, 116, 1, 2, 3, 4, 5, 6, 7, 8, 9, 10, 11, 12,
];

/// With nonce and ballast given, every byte of the obfuscated packet is
/// fixed.
#[test]
fn obfuscate_with_gives_the_expected_bytes() {
    let ballast = [0xb0u8, 0xb1, 0xb2, 0xb3, 0xb4];
    for (fast, head, udp_sum, tail) in [
        (
            true,
            [116u8, 1, 185, 108, 243, 48, 58, 217, 91, 104, 93, 115, 165, 52, 69, 43],
            [146u8, 125],
            SEALED_TAIL_FAST,
        ),
        (
            false,
            [230u8, 70, 24, 104, 107, 188, 72, 4, 42, 25, 207, 117, 42, 15, 30, 114],
            [77u8, 96],
            SEALED_TAIL_FALLBACK,
        ),
    ] {
        let mut buf = [0xeeu8; 200];
        buf[..156].copy_from_slice(&FIXTURE);
        let config = rule(1500, CipherMode::Auto);
        let new_len = obfuscate_with(&mut buf, 156, &config, fast, &ballast, &NONCE);
        assert_eq!(new_len, 156 + 1 + 5 + 12);
        // IPv4 header: total length 174 and its checksum
        assert_eq!(&buf[..4], &[69, 0, 0, 174]);
        assert_eq!(&buf[10..12], &[81, 222]);
        // UDP header: length 154 and checksum
        assert_eq!(&buf[24..26], &[0, 154]);
        assert_eq!(&buf[26..28], &udp_sum);
        // encrypted header region, untouched middle, ballast, encrypted length and MAC2, nonce
        assert_eq!(&buf[28..44], &head);
        assert_eq!(&buf[44..140], &FIXTURE[44..140]);
        assert_eq!(&buf[140..174], &tail);
        assert_eq!(&buf[174..], &[0xeeu8; 26]);

        let back = deobfuscate_prefix(&mut buf, new_len, &config, fast);
        assert_eq!(back, 156);
        assert_eq!(&buf[..156], &FIXTURE);
        assert_eq!(&buf[174..], &[0xeeu8; 26]);
    }
}

#[test]
fn obfuscate_with_on_ipv6_without_ballast() {
    let packet: [u8; 88] = [
        96, 0, 0, 0, 0, 48, 17, 64, 32, 1, 13, 184, 0, 0, 0, 0, 0, 0, 0, 0, 0, 0, 0, 1, 32, 1, 13,
        184, 0, 0, 0, 0, 0, 0, 0, 0, 0, 0, 0, 2, 202, 108, 202, 108, 0, 48, 135, 84, 1, 6, 11, 16,
        21, 26, 31, 36, 41, 46, 51, 56, 61, 66, 71, 76, 81, 86, 91, 96, 101, 106, 111, 116, 121,
        126, 131, 136, 141, 146, 151, 156, 161, 166, 171, 176, 181, 186, 191, 196,
    ];
    let expected: [u8; 101] = [
        96, 0, 0, 0, 0, 61, 17, 64, 32, 1, 13, 184, 0, 0, 0, 0, 0, 0, 0, 0, 0, 0, 0, 1, 32, 1, 13,
        184, 0, 0, 0, 0, 0, 0, 0, 0, 0, 0, 0, 2, 202, 108, 202, 108, 0, 61, 20, 1, 227, 64, 19,
        120, 231, 195, 111, 204, 31, 55, 252, 77, 23, 77, 89, 62, 81, 86, 91, 96, 101, 106, 111,
        116, 198, 54, 144, 18, 17, 44, 183, 76, 18, 166, 176, 84, 5, 157, 8, 183, 133, 1, 2, 3, 4,
        5, 6, 7, 8, 9, 10, 11, 12,
    ];
    let mut buf = [0u8; 101];
    buf[..88].copy_from_slice(&packet);
    let config = rule(1500, CipherMode::Standard);
    let new_len = obfuscate_with(&mut buf, 88, &config, true, &[], &NONCE);
    assert_eq!(new_len, 101);
    assert_eq!(buf, expected);

    let back = deobfuscate_wg_packet(&mut buf, &config, true);
    assert_eq!(back, Some(88));
    assert_eq!(&buf[..88], &packet);
}

/// Round trip over many draws, both variants, IPv4 and IPv6.
#[test]
fn round_trip_for_many_seeds() {
    let v6: [u8; 88] = [
        96, 0, 0, 0, 0, 48, 17, 64, 32, 1, 13, 184, 0, 0, 0, 0, 0, 0, 0, 0, 0, 0, 0, 1, 32, 1, 13,
        184, 0, 0, 0, 0, 0, 0, 0, 0, 0, 0, 0, 2, 202, 108, 202, 108, 0, 48, 135, 84, 1, 6, 11, 16,
        21, 26, 31, 36, 41, 46, 51, 56, 61, 66, 71, 76, 81, 86, 91, 96, 101, 106, 111, 116, 121,
        126, 131, 136, 141, 146, 151, 156, 161, 166, 171, 176, 181, 186, 191, 196,
    ];
    for seed in 0..40u64 {
        for fast in [true, false] {
            for packet in [&FIXTURE[..], &v6[..]] {
                let config = rule(1500, CipherMode::Auto);
                let mut dropper = KeepaliveDropper::new(0, 9);
                let mut rng = SmallRng::seed_from_u64(seed);
                let mut buf = vec![0u8; 1580];
                buf[..packet.len()].copy_from_slice(packet);
                let len = packet.len();
                let new_len =
                    obfuscate_wg_packet(&mut buf, len, &config, &mut dropper, &mut rng, fast)
                        .expect("a data packet with room is obfuscated");
                let ballast = new_len - len - 13;
                assert!((3..=65).contains(&ballast));
                assert!(new_len <= config.mtu);
                assert_ne!(&buf[..len], packet);
                let back = deobfuscate_prefix(&mut buf, new_len, &config, fast);
                assert_eq!(back, len);
                assert_eq!(&buf[..len], packet);
            }
        }
    }
}

/// The ballast length is drawn anew for every packet, from 3 up to what
/// fits under the MTU.
#[test]
fn ballast_lengths_vary_within_the_budget() {
    let mut seen = std::collections::BTreeSet::new();
    let mut dropper = KeepaliveDropper::new(0, 9);
    let mut rng = SmallRng::seed_from_u64(99);
    for _ in 0..200 {
        let mut buf = [0u8; 256];
        buf[..156].copy_from_slice(&FIXTURE);
        // room for 1 + 12 + 10 more bytes
        let config = rule(179, CipherMode::Auto);
        let new_len = obfuscate_wg_packet(&mut buf, 156, &config, &mut dropper, &mut rng, false)
            .expect("data with room is obfuscated");
        seen.insert(new_len - 156 - 13);
    }
    assert_eq!(seen.iter().copied().collect::<Vec<usize>>(), [3, 4, 5, 6, 7, 8, 9, 10]);
}

/// With the MTU at L + 13 no ballast fits; with a buffer of L + 12 bytes
/// the packet is dropped.
#[test]
fn pad_budget_at_the_edge() {
    let mut dropper = KeepaliveDropper::new(0, 9);
    let mut rng = SmallRng::from_seed([0u8; 32]);

    let mut buf = [0u8; 169];
    buf[..156].copy_from_slice(&FIXTURE);
    let config = rule(169, CipherMode::Auto);
    assert_eq!(obfuscate_wg_packet(&mut buf, 156, &config, &mut dropper, &mut rng, false), Some(169));
    assert_eq!(deobfuscate_wg_packet(&mut buf, &config, false), Some(156));
    assert_eq!(&buf[..156], &FIXTURE);

    // two bytes of room for ballast are not enough for the smallest ballast
    let mut buf = [0u8; 171];
    buf[..156].copy_from_slice(&FIXTURE);
    let config = rule(171, CipherMode::Auto);
    assert_eq!(obfuscate_wg_packet(&mut buf, 156, &config, &mut dropper, &mut rng, false), Some(169));

    // three bytes are
    let mut buf = [0u8; 172];
    buf[..156].copy_from_slice(&FIXTURE);
    let config = rule(172, CipherMode::Auto);
    assert_eq!(obfuscate_wg_packet(&mut buf, 156, &config, &mut dropper, &mut rng, false), Some(172));

    let mut buf = [0u8; 168];
    buf[..156].copy_from_slice(&FIXTURE);
    let config = rule(168, CipherMode::Auto);
    assert_eq!(obfuscate_wg_packet(&mut buf, 156, &config, &mut dropper, &mut rng, false), None);
    assert_eq!(&buf[..156], &FIXTURE);

    // a buffer with headroom takes the packet beyond the MTU
    let mut buf = [0u8; 248];
    buf[..156].copy_from_slice(&FIXTURE);
    assert_eq!(obfuscate_wg_packet(&mut buf, 156, &config, &mut dropper, &mut rng, false), Some(169));
}

/// Empty packets, packets over the MTU, other IP versions and packets too
/// short for WireGuard pass through unchanged.
#[test]
fn packets_that_are_not_transformed_pass_through() {
    let mut dropper = KeepaliveDropper::new(0, 9);
    let mut rng = SmallRng::from_seed([1u8; 32]);
    let config = rule(1500, CipherMode::Auto);

    let mut buf = [0u8; 300];
    buf[..156].copy_from_slice(&FIXTURE);
    let unchanged = buf;
    assert_eq!(obfuscate_wg_packet(&mut buf, 0, &config, &mut dropper, &mut rng, true), Some(0));
    assert_eq!(buf, unchanged);
    assert_eq!(
        obfuscate_wg_packet(&mut buf, 156, &rule(155, CipherMode::Auto), &mut dropper, &mut rng, true),
        Some(156)
    );
    assert_eq!(buf, unchanged);
    // 28 bytes of headers and 31 of payload
    assert_eq!(obfuscate_wg_packet(&mut buf, 59, &config, &mut dropper, &mut rng, true), Some(59));
    assert_eq!(buf, unchanged);

    let mut other = [0x55u8; 300];
    let unchanged = other;
    assert_eq!(obfuscate_wg_packet(&mut other, 156, &config, &mut dropper, &mut rng, true), Some(156));
    assert_eq!(other, unchanged);
    assert_eq!(deobfuscate_wg_packet(&mut other, &config, true), Some(300));
    assert_eq!(other, unchanged);

    let mut empty: [u8; 0] = [];
    assert_eq!(deobfuscate_wg_packet(&mut empty, &config, true), Some(0));
    // 28 bytes of headers and 45 more: no longer than a packet without obfuscation data
    let mut short = [0u8; 73];
    short.copy_from_slice(&FIXTURE[..73]);
    assert_eq!(deobfuscate_wg_packet(&mut short, &config, true), Some(73));
    assert_eq!(&short[..], &FIXTURE[..73]);
}

/// A keepalive is dropped and the buffer left alone.
#[test]
fn keepalives_are_dropped_on_egress() {
    let mut dropper = KeepaliveDropper::new(2, 2);
    let mut rng = SmallRng::from_seed([2u8; 32]);
    let config = rule(1500, CipherMode::Auto);
    let mut buf = [0u8; 200];
    buf[..60].copy_from_slice(&FIXTURE[..60]);
    assert_eq!(buf[28], 0x04);
    let unchanged = buf;
    for _ in 0..3 {
        assert_eq!(obfuscate_wg_packet(&mut buf, 60, &config, &mut dropper, &mut rng, true), None);
        assert_eq!(buf, unchanged);
    }
    assert_eq!(dropper.drop_left, 0);
    assert!(dropper.pending_until.is_some());
    // a payload of 33 bytes is data
    let sent = obfuscate_wg_packet(&mut buf, 61, &config, &mut dropper, &mut rng, true);
    assert!(sent.is_some());
    assert_eq!(dropper.pending_until, None);
}

/// A ballast length that does not fit the packet leaves it untouched.
#[test]
fn deobfuscation_leaves_malformed_packets_untouched() {
    let config = rule(1500, CipherMode::Standard);
    let mut touched = 0;
    for fill in 0..=255u8 {
        let mut packet = [fill; 80];
        packet[0] = 0x45;
        let original = packet;
        let len = deobfuscate_wg_packet(&mut packet, &config, false).unwrap();
        if len == 80 {
            assert_eq!(packet, original);
        } else {
            assert!(len <= 80 - 13);
            touched += 1;
        }
    }
    assert!(touched < 256);
}

/// The same seed gives the same obfuscated bytes.
#[test]
fn obfuscation_is_a_function_of_the_seed() {
    let config = rule(400, CipherMode::Fast);
    let mut first = [0u8; 480];
    let mut second = [0u8; 480];
    first[..156].copy_from_slice(&FIXTURE);
    second[..156].copy_from_slice(&FIXTURE);
    let mut dropper = KeepaliveDropper::new(0, 9);
    let a = obfuscate_wg_packet(&mut first, 156, &config, &mut dropper, &mut SmallRng::seed_from_u64(7), true);
    let b = obfuscate_wg_packet(&mut second, 156, &config, &mut dropper, &mut SmallRng::seed_from_u64(7), true);
    assert_eq!(a, b);
    assert_eq!(first, second);
    let c = obfuscate_wg_packet(&mut second, 156, &config, &mut dropper, &mut SmallRng::seed_from_u64(8), true);
    assert!(c.is_some());
}

/// A payload of exactly 32 bytes that gets no ballast is as long as the
/// longest packet without obfuscation data: the receiving side passes it
/// through as it arrived.
#[test]
fn smallest_payload_without_ballast_passes_through_on_ingress() {
    let mut packet = [1u8; 80];
    packet[..8].copy_from_slice(&[0x60, 0, 0, 0, 0, 0, 17, 64]);
    nf_wgobfs::netutils::ipv6::fix_udp_headers(&mut packet);
    let config = rule(93, CipherMode::Standard);
    let mut dropper = KeepaliveDropper::new(0, 9);
    let mut rng = SmallRng::seed_from_u64(1);
    let mut buf = [0u8; 173];
    buf[..80].copy_from_slice(&packet);
    assert_eq!(obfuscate_wg_packet(&mut buf, 80, &config, &mut dropper, &mut rng, false), Some(93));
    let sent = buf;
    assert_eq!(deobfuscate_prefix(&mut buf, 93, &config, false), 93);
    assert_eq!(buf, sent);

    // one byte more of payload, and the packet comes back
    let mut longer = [1u8; 81];
    longer[..8].copy_from_slice(&[0x60, 0, 0, 0, 0, 0, 17, 64]);
    nf_wgobfs::netutils::ipv6::fix_udp_headers(&mut longer);
    let config = rule(94, CipherMode::Standard);
    let mut buf = [0u8; 174];
    buf[..81].copy_from_slice(&longer);
    assert_eq!(obfuscate_wg_packet(&mut buf, 81, &config, &mut dropper, &mut rng, false), Some(94));
    assert_eq!(deobfuscate_prefix(&mut buf, 94, &config, false), 81);
    assert_eq!(&buf[..81], &longer);
}

/// The DSCP bits are cleared on egress and are not restored on ingress;
/// everything else of the packet is.
#[test]
fn dscp_bits_stay_cleared_after_the_round_trip() {
    let mut packet = FIXTURE;
    packet[1] = 0x89;
    nf_wgobfs::netutils::ipv4::fix_udp_headers(&mut packet);
    let config = rule(1500, CipherMode::Auto);
    let mut dropper = KeepaliveDropper::new(0, 9);
    let mut rng = SmallRng::seed_from_u64(3);
    let mut buf = [0u8; 300];
    buf[..156].copy_from_slice(&packet);
    let sent = obfuscate_wg_packet(&mut buf, 156, &config, &mut dropper, &mut rng, true).unwrap();
    assert_eq!(buf[1], 0x01);
    assert_eq!(deobfuscate_prefix(&mut buf, sent, &config, true), 156);
    assert_eq!(buf[1], 0x01);
    let mut expected = packet;
    expected[1] = 0x01;
    nf_wgobfs::netutils::ipv4::fix_udp_headers(&mut expected);
    assert_eq!(&buf[..156], &expected);
}
