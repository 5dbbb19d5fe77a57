use nf_wgobfs::config::{ascii_to_key, CipherMode, Direction, FilterConfig};
use nf_wgobfs::filter::keepalive::KeepaliveDropper;
use nf_wgobfs::filter::queue::{dispatch, Verdict, Worker};
use nf_wgobfs::randomiser::{fill_random, mix_seed, rng_from_entropy};
use nf_wgobfs::cipher::randomiser::{fill_ballast, fill_nonce};
use rand::rngs::SmallRng;
use rand::SeedableRng;

const DATA: [u8; 64] = [
    0x45, 0x00, 0x00, 0x40, 0x00, 0x00, 0x00, 0x00, 0x40, 0x11, 0x00, 0x00, 10, 0, 0, 1, 10, 0, 0,
    2, 0xca, 0x6c, 0xca, 0x6c, 0x00, 0x2c, 0x00, 0x00, 0x01, 2, 3, 4, 5, 6, 7, 8, 9, 10, 11, 12,
    13, 14, 15, 16, 17, 18, 19, 20, 21, 22, 23, 24, 25, 26, 27, 28, 29, 30, 31, 32, 33, 34, 35, 36,
];

fn rule(direction: Direction) -> FilterConfig {
    FilterConfig {
        queue_num: 3,
        direction,
        key: ascii_to_key("queue"),
        mtu: 1500,
        mode: CipherMode::Auto,
    }
}

#[test]
fn worker_has_a_buffer_of_mtu_plus_headroom() {
    let worker = Worker::new(rule(Direction::Out), SmallRng::seed_from_u64(1), false);
    assert_eq!(worker.buf.len(), 1580);
    assert!(worker.buf.iter().all(|b| *b == 0));
    assert_eq!((worker.dropper.min, worker.dropper.max), (1, 9));
}

/// What one worker sends, another with the same rule takes back.
#[test]
fn workers_of_both_directions_undo_each_other() {
    for fast in [true, false] {
        let mut out = Worker::new(rule(Direction::Out), SmallRng::seed_from_u64(2), fast);
        let mut back = Worker::new(rule(Direction::In), SmallRng::seed_from_u64(3), fast);
        // headers as a sender leaves them
        let mut packet = DATA;
        nf_wgobfs::netutils::ipv4::fix_udp_headers(&mut packet);

        let sent = match out.handle(&packet) {
            Verdict::Accept(len) => out.buf[..len].to_vec(),
            Verdict::Drop => panic!("data is not dropped"),
        };
        assert!(sent.len() >= packet.len() + 16 && sent.len() <= packet.len() + 78);
        match back.handle(&sent) {
            Verdict::Accept(len) => assert_eq!(&back.buf[..len], &packet),
            Verdict::Drop => panic!("arriving packets are never dropped"),
        }
    }
}

#[test]
fn worker_drops_keepalives_on_egress_only() {
    let mut keepalive = [0u8; 60];
    keepalive[..28].copy_from_slice(&DATA[..28]);
    keepalive[28] = 0x04;
    let mut out = Worker::new(rule(Direction::Out), SmallRng::seed_from_u64(4), true);
    assert_eq!(out.handle(&keepalive), Verdict::Drop);
    let mut back = Worker::new(rule(Direction::In), SmallRng::seed_from_u64(4), true);
    assert_eq!(back.handle(&keepalive), Verdict::Accept(60));
    assert_eq!(&back.buf[..60], &keepalive);
}

#[test]
fn dispatch_follows_the_direction() {
    let mut dropper = KeepaliveDropper::new(0, 9);
    let mut rng = SmallRng::seed_from_u64(5);
    let mut buf = [0u8; 200];
    buf[..64].copy_from_slice(&DATA);
    let verdict = dispatch(&mut buf, 64, &rule(Direction::Out), &mut dropper, &mut rng, false);
    let len = match verdict {
        Verdict::Accept(len) => len,
        Verdict::Drop => panic!("data is not dropped"),
    };
    assert!(len > 64);
    let verdict = dispatch(&mut buf, len, &rule(Direction::In), &mut dropper, &mut rng, false);
    assert_eq!(verdict, Verdict::Accept(64));
}

#[test]
fn seed_mixing_has_the_expected_value() {
    assert_eq!(mix_seed(0, 0, 0), 0);
    assert_eq!(mix_seed(0x1234, 1, 0x80), 0x1234 ^ (1 << 13) ^ 1);
    assert_eq!(
        mix_seed(1, 0x8000_0000_0000_0001, 3),
        1 ^ 0x8000_0000_0000_0001u64.rotate_left(13) ^ 3u64.rotate_right(7)
    );
}

/// The generator is the one that `SmallRng::seed_from_u64` gives for the
/// mixed seed.
#[test]
fn rng_from_entropy_is_seeded_with_the_mixed_seed() {
    let mut ours = rng_from_entropy(11, 22, 33);
    let mut theirs = SmallRng::seed_from_u64(mix_seed(11, 22, 33));
    let mut a = [0u8; 40];
    let mut b = [0u8; 40];
    fill_random(&mut a, &mut ours);
    rand::RngCore::fill_bytes(&mut theirs, &mut b);
    assert_eq!(a, b);
    assert_ne!(a, [0u8; 40]);
}

#[test]
fn nonce_and_ballast_are_filled() {
    let mut rng = SmallRng::seed_from_u64(9);
    let mut nonce = [0u8; 12];
    fill_nonce(&mut nonce, &mut rng);
    assert_ne!(nonce, [0u8; 12]);
    let mut ballast = [0u8; 65];
    fill_ballast(&mut ballast, &mut rng);
    assert_ne!(ballast, [0u8; 65]);
    let mut none: [u8; 0] = [];
    fill_ballast(&mut none, &mut rng);
}
