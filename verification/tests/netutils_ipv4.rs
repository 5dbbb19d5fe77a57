use nf_wgobfs::netutils::ipv4::{
    clear_diffserv, clear_diffserv_prefix, fix_udp_headers, fix_udp_headers_prefix, udp_checksum,
};

/// Test clearing the DiffServ field in an IPv4 packet.
#[test]
fn test_clear_diffserv() {
    let mut packet = [
        0x45, 0x88, 0x00, 0xb0, 0x2e, 0x41, 0x00, 0x00, 0x40, 0x11, 0x81, 0x2f, 0x59, 0xdf, 0x46,
        0x63, 0xd5, 0xa5, 0x54, 0x5d, 0xca, 0x6c, 0xca, 0x6c, 0x00, 0x9c, 0x7b, 0x52, 0x01,
    ];
    clear_diffserv(&mut packet);
    assert_eq!(packet[1], 0x00);
}

/// Test fixing UDP headers and verifying UDP checksum calculation.
#[test]
fn test_fix_udp_headers_and_udp_checksum() {
    let mut packet = [
        // IPv4 header (20 bytes)
        0x45, 0x00, 0x00, 0x1c, 0x00, 0x00, 0x00, 0x00, 0x40, 0x11, 0x00, 0x00, 192, 168, 1, 1,
        192, 168, 1, 2, // UDP header (8 bytes)
        0x12, 0x34, 0x56, 0x78, 0x00, 0x0c, 0x00, 0x00, // UDP payload (4 bytes)
        1, 2, 3, 4,
    ];

    let ihl = ((packet[0] & 0x0f) as usize) * 4;
    fix_udp_headers(&mut packet);
    let udp = &packet[ihl..];
    let src = &packet[12..16];
    let dst = &packet[16..20];

    let mut udp_for_sum = udp.to_owned();
    udp_for_sum[6] = 0;
    udp_for_sum[7] = 0;

    let sum = udp_checksum(&udp_for_sum, src, dst);
    let packet_sum = ((packet[ihl + 6] as u16) << 8) | (packet[ihl + 7] as u16);

    assert_eq!(sum, packet_sum);
}

/// Test UDP checksum calculation for even and odd length UDP segments.
#[test]
fn test_udp_checksum_even_and_odd() {
    let src = [10, 0, 0, 1];
    let dst = [10, 0, 0, 2];
    let udp_even = [0x00, 0x35, 0x00, 0x35, 0x00, 0x08, 0x00, 0x00]; // 8 bytes
    let udp_odd = [0x00, 0x35, 0x00, 0x35, 0x00, 0x07, 0x00, 0x00, 0xFF]; // 9 bytes

    let sum_even = udp_checksum(&udp_even, &src, &dst);
    let sum_odd = udp_checksum(&udp_odd, &src, &dst);

    assert_ne!(sum_even, 0);
    assert_ne!(sum_odd, 0);
}

#[test]
fn udp_checksum_has_the_expected_values() {
    let src = [10, 0, 0, 1];
    let dst = [10, 0, 0, 2];
    let udp_even = [0x00, 0x35, 0x00, 0x35, 0x00, 0x08, 0x00, 0x00];
    let udp_odd = [0x00, 0x35, 0x00, 0x35, 0x00, 0x07, 0x00, 0x00, 0xFF];
    assert_eq!(udp_checksum(&udp_even, &src, &dst), 0xeb71);
    assert_eq!(udp_checksum(&udp_odd, &src, &dst), 0xec70);
}

/// A segment too long for the stack buffer takes the heap path.
#[test]
fn udp_checksum_of_a_long_segment() {
    let src = [10, 0, 0, 1];
    let dst = [10, 0, 0, 2];
    let udp: Vec<u8> = (0..3001u32).map(|i| ((i * 7 + 3) & 0xff) as u8).collect();
    assert_eq!(udp_checksum(&udp, &src, &dst), 0xea3d);
}

#[test]
fn fix_udp_headers_writes_lengths_and_checksums() {
    let mut packet = [
        0x45, 0x00, 0x00, 0x1c, 0x00, 0x00, 0x00, 0x00, 0x40, 0x11, 0x00, 0x00, 192, 168, 1, 1,
        192, 168, 1, 2, 0x12, 0x34, 0x56, 0x78, 0x00, 0x0c, 0x00, 0x00, 1, 2, 3, 4,
    ];
    fix_udp_headers(&mut packet);
    let expected = [
        69, 0, 0, 32, 0, 0, 0, 0, 64, 17, 247, 121, 192, 168, 1, 1, 192, 168, 1, 2, 18, 52, 86,
        120, 0, 12, 15, 208, 1, 2, 3, 4,
    ];
    assert_eq!(packet, expected);
}

/// Running the repair twice gives the same bytes as running it once.
#[test]
fn fix_udp_headers_is_idempotent() {
    let mut packet = [
        0x46, 0x10, 0xff, 0xff, 0x00, 0x00, 0x00, 0x00, 0x40, 0x11, 0xaa, 0xbb, 192, 168, 1, 1,
        192, 168, 1, 2, 1, 1, 4, 0, 0x12, 0x34, 0x56, 0x78, 0x99, 0x99, 0x77, 0x77, 1, 2, 3, 4, 5,
    ];
    fix_udp_headers(&mut packet);
    let once = packet;
    fix_udp_headers(&mut packet);
    assert_eq!(packet, once);
    assert_eq!(&once[2..4], &[0, 37]);
    assert_eq!(&once[28..30], &[0, 13]);
}

/// Packets too short for the header they declare are left alone.
#[test]
fn fix_udp_headers_leaves_malformed_packets_alone() {
    let mut short = [0x45u8; 19];
    fix_udp_headers(&mut short);
    assert_eq!(short, [0x45u8; 19]);

    let mut small_ihl = [0x44u8; 40];
    fix_udp_headers(&mut small_ihl);
    assert_eq!(small_ihl, [0x44u8; 40]);

    let mut no_room = [0x4fu8; 67];
    fix_udp_headers(&mut no_room);
    assert_eq!(no_room, [0x4fu8; 67]);
}

#[test]
fn prefix_variants_leave_the_tail_untouched() {
    let mut buf = [
        0x45, 0x8b, 0x00, 0x1c, 0x00, 0x00, 0x00, 0x00, 0x40, 0x11, 0x00, 0x00, 192, 168, 1, 1,
        192, 168, 1, 2, 0x12, 0x34, 0x56, 0x78, 0x00, 0x0c, 0x00, 0x00, 1, 2, 3, 4, 0xee, 0xee,
        0xee,
    ];
    clear_diffserv_prefix(&mut buf, 32);
    assert_eq!(buf[1], 0x03);
    fix_udp_headers_prefix(&mut buf, 32);
    assert_eq!(&buf[2..4], &[0, 32]);
    assert_eq!(&buf[32..], &[0xee, 0xee, 0xee]);

    let mut tiny = [0x45u8, 0xff, 0, 0];
    clear_diffserv_prefix(&mut tiny, 4);
    assert_eq!(tiny[1], 0xff);
}

/// DSCP bits go, ECN bits stay.
#[test]
fn clear_diffserv_keeps_the_ecn_bits() {
    let mut packet = [0u8; 20];
    packet[0] = 0x45;
    packet[1] = 0x88;
    clear_diffserv(&mut packet);
    assert_eq!(packet[1], 0x00);
    packet[1] = 0x89;
    clear_diffserv(&mut packet);
    assert_eq!(packet[1], 0x01);
}
