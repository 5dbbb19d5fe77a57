use nf_wgobfs::config::{
    ascii_to_key, parse_config, rule_for_queue, CipherMode, ConfigError, Direction,
};
use nf_wgobfs::text::{parse_u16, trim_bounds};

/// Tests that ascii_to_key produces consistent results for the same input.
#[test]
fn test_ascii_to_key_consistency() {
    let key1 = ascii_to_key("testkey");
    let key2 = ascii_to_key("testkey");
    assert_eq!(key1, key2);
}

/// Tests that ascii_to_key produces different results for different inputs.
#[test]
fn test_ascii_to_key_differs() {
    let key1 = ascii_to_key("testkey1");
    let key2 = ascii_to_key("testkey2");
    assert_ne!(key1, key2);
}

/// Tests parsing a full config line with all fields present.
#[test]
fn test_parse_config_line_full() {
    let line = ["1:in:wg_in:abcdef0123456789abcdef0123456789:F:1350"];
    let line: Vec<String> = line.iter().map(|s| s.to_string()).collect();
    if let Ok(config) = parse_config(&line) {
        assert_eq!(config[0].queue_num, 1);
        assert_eq!(config[0].direction, Direction::In);
        assert_eq!(config[0].key, ascii_to_key("abcdef0123456789abcdef0123456789"));
        assert_eq!(config[0].mtu, 1350);
    } else {
        panic!("Failed to parse config line");
    }
}

/// Tests parsing multiple config lines, including default MTU handling.
#[test]
fn test_parse_config_line_full_and_defaults() {
    let lines = [
        "0:out:wg_out:abcdef6760123456789abcdef0123456789:1350",
        "1:in:wg_in:fjklabcdef0123456789abcdef0123456789",
        "2:in:wg_in:mnopf0123456789abcdef0123456789",
        "3:in:wg_in:mnopf0123456789abcdef0123456789",
    ];
    let lines: Vec<String> = lines.iter().map(|s| s.to_string()).collect();
    if let Ok(configs) = parse_config(&lines) {
        assert_eq!(configs[0].queue_num, 0);
        assert_eq!(configs[0].direction, Direction::Out);
        assert_eq!(configs[0].key, ascii_to_key("abcdef6760123456789abcdef0123456789"));
        assert_eq!(configs[0].mtu, 1350);

        assert_eq!(configs[1].queue_num, 1);
        assert_eq!(configs[1].direction, Direction::In);
        assert_eq!(configs[1].key, ascii_to_key("fjklabcdef0123456789abcdef0123456789"));
        assert_eq!(configs[1].mtu, 1500); // Default MTU
        assert_eq!(configs[2].queue_num, 2);
        assert_eq!(configs[2].direction, Direction::In);
        assert_eq!(configs[2].key, ascii_to_key("mnopf0123456789abcdef0123456789"));
        assert_eq!(configs[2].mtu, 1500); // Default MTU
    } else {
        panic!("Failed to parse config lines");
    }
}

/// Tests that duplicate queue numbers in the config cause an error.
#[test]
fn test_parse_config_duplicate_queue_num() {
    let lines = [
        "1:in:wg_in:abcdef0123456789abcdef0123456789:1350",
        "1:out:wg_out:abcdef0123456789abcdef0123456789:1400", // duplicate queue_num
    ];
    let lines: Vec<String> = lines.iter().map(|s| s.to_string()).collect();
    let result = parse_config(&lines);
    assert!(result.is_err(), "Duplicate queue numbers should cause an error");
}

fn lines(text: &[&str]) -> Vec<String> {
    text.iter().map(|s| s.to_string()).collect()
}

/// The key is the SHA-256 digest of the passphrase.
#[test]
fn ascii_to_key_is_the_sha256_digest() {
    let expected: [u8; 32] = [
        0xba, 0x78, 0x16, 0xbf, 0x8f, 0x01, 0xcf, 0xea, 0x41, 0x41, 0x40, 0xde, 0x5d, 0xae, 0x22,
        0x23, 0xb0, 0x03, 0x61, 0xa3, 0x96, 0x17, 0x7a, 0x9c, 0xb4, 0x10, 0xff, 0x61, 0xf2, 0x00,
        0x15, 0xad,
    ];
    assert_eq!(ascii_to_key("abc"), expected);
    let secret: [u8; 32] = [
        173, 22, 91, 17, 50, 11, 201, 21, 1, 171, 8, 97, 60, 195, 164, 138, 98, 166, 202, 202, 77,
        92, 139, 20, 202, 130, 204, 49, 59, 59, 150, 205,
    ];
    assert_eq!(ascii_to_key("secretkey"), secret);
}

#[test]
fn duplicate_and_invalid_lines_give_their_errors() {
    assert_eq!(
        parse_config(&lines(&["1:in:a:b", "2:in:a:b", "1:out:a:b"])).err(),
        Some(ConfigError::DuplicateQueue)
    );
    // a duplicate is found before the missing fields of its line are
    assert_eq!(parse_config(&lines(&["7:in:a:b", "7"])).err(), Some(ConfigError::DuplicateQueue));
    // the first refused line decides
    assert_eq!(
        parse_config(&lines(&["7:in:a:b", "x:in:a:b", "7:in:a:b"])).err(),
        Some(ConfigError::InvalidData)
    );
    for bad in ["", ":in:a:b", "abc:in:a:b", "65536:in:a:b", "-1:in:a:b", " 1:in:a:b", "1", "1:in",
        "1:in:name", "+:in:a:b", "1 :in:a:b"]
    {
        assert_eq!(parse_config(&lines(&[bad])).err(), Some(ConfigError::InvalidData), "{bad:?}");
    }
    assert!(parse_config(&[]).unwrap().is_empty());
}

#[test]
fn queue_numbers_are_read_in_decimal() {
    let configs = parse_config(&lines(&["65535:in:a:b", "+12:in:a:b", "0007:in:a:b"])).unwrap();
    assert_eq!(configs[0].queue_num, 65535);
    assert_eq!(configs[1].queue_num, 12);
    assert_eq!(configs[2].queue_num, 7);
    assert_eq!(
        parse_config(&lines(&["7:in:a:b", "+007:in:a:b"])).err(),
        Some(ConfigError::DuplicateQueue)
    );
}

#[test]
fn direction_is_in_only_for_in() {
    let configs = parse_config(&lines(&[
        "1:in:a:b", "2:IN:a:b", "3:In:a:b", "4:iN:a:b", "5:out:a:b", "6::a:b", "7:inn:a:b",
        "8: in:a:b", "9:i:a:b",
    ]))
    .unwrap();
    let directions: Vec<Direction> = configs.iter().map(|c| c.direction).collect();
    assert_eq!(
        directions,
        [
            Direction::In,
            Direction::In,
            Direction::In,
            Direction::In,
            Direction::Out,
            Direction::Out,
            Direction::Out,
            Direction::Out,
            Direction::Out
        ]
    );
}

#[test]
fn mode_and_mtu_come_from_the_fields_behind_the_passphrase() {
    let configs = parse_config(&lines(&[
        "1:out:n:pass",
        "2:out:n:pass:F",
        "3:out:n:pass:s:1400",
        "4:out:n:pass:1280",
        "5:out:n:pass:S:junk",
        "6:out:n:pass:x:900:1000",
        "7:out:n:pass:f:70000",
        "8:out:n:pass:",
        "9:out:n:pass:FF:0",
    ]))
    .unwrap();
    let got: Vec<(CipherMode, usize)> = configs.iter().map(|c| (c.mode, c.mtu)).collect();
    assert_eq!(
        got,
        [
            (CipherMode::Auto, 1500),
            (CipherMode::Fast, 1500),
            (CipherMode::Standard, 1400),
            (CipherMode::Auto, 1280),
            (CipherMode::Standard, 1500),
            (CipherMode::Auto, 1000),
            (CipherMode::Fast, 1500),
            (CipherMode::Auto, 1500),
            (CipherMode::Auto, 0),
        ]
    );
}

/// White space around the passphrase does not enter the key.
#[test]
fn passphrase_is_trimmed() {
    let configs = parse_config(&lines(&[
        "1:out:n: \tpass \r\n",
        "2:out:n:\u{a0}\u{2003}pass\u{3000}\u{85}:1400",
        "3:out:n:pa ss",
        "4:out:n:  ",
        "5:out:n:\u{2007}p\u{e9}\u{1680}",
    ]))
    .unwrap();
    assert_eq!(configs[0].key, ascii_to_key("pass"));
    assert_eq!(configs[1].key, ascii_to_key("pass"));
    assert_eq!(configs[1].mtu, 1400);
    assert_eq!(configs[2].key, ascii_to_key("pa ss"));
    assert_eq!(configs[3].key, ascii_to_key(""));
    assert_eq!(configs[4].key, ascii_to_key("p\u{e9}"));
}

#[test]
fn trim_bounds_agree_with_str_trim() {
    for text in ["", " ", "a", " a", "a ", "\u{a0}a b\u{2028}\u{2029}", "\u{200b}x\u{200b}",
        "\u{205f}\u{202f}z\u{200a}\u{2000}", "\u{e2}\u{80}", "\t\n\u{b}\u{c}\r q"]
    {
        let bytes = text.as_bytes();
        let (start, end) = trim_bounds(bytes);
        assert_eq!(&bytes[start..end], text.trim().as_bytes(), "{text:?}");
    }
}

#[test]
fn parse_u16_agrees_with_str_parse() {
    for text in ["0", "1", "65535", "65536", "99999999999999999999", "+5", "-5", "", "+", "12a",
        "a12", "0000000000000000000000065535", " 1", "1 ", "++1", "6553５"]
    {
        assert_eq!(parse_u16(text.as_bytes()), text.parse::<u16>().ok(), "{text:?}");
    }
}

#[test]
fn rules_are_found_by_queue_number() {
    let configs = parse_config(&lines(&["5:in:a:b", "9:out:a:b", "0:in:a:b"])).unwrap();
    assert_eq!(rule_for_queue(&configs, 5), Some(0));
    assert_eq!(rule_for_queue(&configs, 0), Some(2));
    assert_eq!(rule_for_queue(&configs, 9), Some(1));
    assert_eq!(rule_for_queue(&configs, 1), None);
    assert_eq!(rule_for_queue(&[], 1), None);
}
