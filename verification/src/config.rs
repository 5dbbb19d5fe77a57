//! Filter rules: one per queue, each with a direction, a key derived from a
//! passphrase, a path MTU and a hint for the choice of cipher; and the
//! line format they are written in.

use vstd::prelude::*;
use sha2::{Digest, Sha256};
use std::collections::HashSet;
use crate::text::{
    field, field_starts, line_end, parse_u16, parse_u16_spec, skip_spaces, skip_word,
    split_fields, trim_bounds, trim_spec, trim_start_index, word_end,
};

verus! {

broadcast use vstd::std_specs::hash::group_hash_axioms;

/// Direction of a rule: `In` removes the obfuscation from arriving
/// packets, `Out` applies it to departing ones.
#[derive(Debug, Clone, Copy, PartialEq, Eq, Structural)]
pub enum Direction {
    In,
    Out,
}

/// Hint for the choice of cipher: `Standard` forces the reduced-round
/// fallback, `Fast` and `Auto` take the full-round cipher where the machine
/// has a fast path for it.
#[derive(Debug, Clone, Copy, PartialEq, Eq, Structural)]
pub enum CipherMode {
    Auto,
    Fast,
    Standard,
}

/// Path MTU of a rule that names none.
pub const DEFAULT_MTU: usize = 1500;

/// One filter rule.
#[derive(Clone, Copy)]
pub struct FilterConfig {
    /// Netfilter queue number.
    pub queue_num: u16,
    /// Direction of the filter.
    pub direction: Direction,
    /// 32-byte key derived from the passphrase.
    pub key: [u8; 32],
    /// Path MTU in bytes.
    pub mtu: usize,
    /// Hint for the choice of cipher.
    pub mode: CipherMode,
}

/// A rule as the contracts see it: the key as a sequence of bytes.
pub struct Rule {
    pub queue_num: u16,
    pub direction: Direction,
    pub key: Seq<u8>,
    pub mtu: usize,
    pub mode: CipherMode,
}

impl View for FilterConfig {
    type V = Rule;

    open spec fn view(&self) -> Rule {
        Rule {
            queue_num: self.queue_num,
            direction: self.direction,
            key: self.key@,
            mtu: self.mtu,
            mode: self.mode,
        }
    }
}

/// Why a set of rule lines is refused.
#[derive(Debug, Clone, Copy, PartialEq, Eq, Structural)]
pub enum ConfigError {
    /// A line has no queue number in front, or fewer than four fields.
    InvalidData,
    /// Two lines name the same queue.
    DuplicateQueue,
}

/// The SHA-256 digest of `data`, as the `sha2` crate computes it.
pub uninterp spec fn sha256(data: Seq<u8>) -> Seq<u8>;

/// The direction that a field names: `in` in any mix of cases is `In`,
/// anything else `Out`.
pub open spec fn direction_spec(field: Seq<u8>) -> Direction {
    if field.len() == 2 && (field[0] == 0x69 || field[0] == 0x49) && (field[1] == 0x6e
        || field[1] == 0x4e) {
        Direction::In
    } else {
        Direction::Out
    }
}

/// The cipher mode that a field names: `F` or `f` is `Fast`, `S` or `s`
/// is `Standard`, anything else `Auto`.
pub open spec fn mode_spec(field: Seq<u8>) -> CipherMode {
    if field.len() == 1 && (field[0] == 0x46 || field[0] == 0x66) {
        CipherMode::Fast
    } else if field.len() == 1 && (field[0] == 0x53 || field[0] == 0x73) {
        CipherMode::Standard
    } else {
        CipherMode::Auto
    }
}

/// The rule that the fields of a line give for queue `queue_num`: the
/// direction from the second field, the key from the fourth without the
/// white space at its ends, the mode from the fifth where there is one, and
/// the MTU from the last field behind the fourth where that is a number.
pub open spec fn rule_of(queue_num: u16, fields: Seq<Seq<u8>>) -> Rule {
    Rule {
        queue_num,
        direction: direction_spec(fields[1]),
        key: sha256(trim_spec(fields[3])),
        mtu: if fields.len() >= 5 && parse_u16_spec(fields.last()) is Some {
            parse_u16_spec(fields.last())->0 as usize
        } else {
            DEFAULT_MTU
        },
        mode: if fields.len() >= 5 {
            mode_spec(fields[4])
        } else {
            CipherMode::Auto
        },
    }
}

/// Whether one of the rules is for queue `queue_num`.
pub open spec fn has_queue(rules: Seq<Rule>, queue_num: u16) -> bool {
    exists|j: int| 0 <= j < rules.len() && (#[trigger] rules[j]).queue_num == queue_num
}

/// The rules that a sequence of lines gives, or the error of the first
/// line that is refused: a line without a queue number in front, a queue
/// number that an earlier line has, or a line of fewer than four fields,
/// tested in this order.
pub open spec fn parse_config_spec(lines: Seq<Seq<u8>>) -> Result<Seq<Rule>, ConfigError>
    decreases lines.len(),
{
    if lines.len() == 0 {
        Ok(Seq::<Rule>::empty())
    } else {
        match parse_config_spec(lines.drop_last()) {
            Err(error) => Err(error),
            Ok(rules) => {
                let fields = split_fields(lines.last());
                match parse_u16_spec(fields[0]) {
                    None => Err(ConfigError::InvalidData),
                    Some(queue_num) => if has_queue(rules, queue_num) {
                        Err(ConfigError::DuplicateQueue)
                    } else if fields.len() < 4 {
                        Err(ConfigError::InvalidData)
                    } else {
                        Ok(rules.push(rule_of(queue_num, fields)))
                    },
                }
            },
        }
    }
}

/// The lines as bytes: each string in UTF-8.
pub open spec fn line_bytes(lines: Seq<String>) -> Seq<Seq<u8>> {
    Seq::new(lines.len(), |i: int| vstd::utf8::encode_utf8(lines[i]@))
}

/// The rules as the contracts see them.
pub open spec fn rule_views(configs: Seq<FilterConfig>) -> Seq<Rule> {
    Seq::new(configs.len(), |i: int| configs[i]@)
}

/// What a line of the rule file holds once the white space at its ends is
/// gone: nothing for a blank line and for a comment, which starts with
/// `#`, and the rule text for any other line.
pub open spec fn rule_text(line: Seq<u8>) -> Option<Seq<u8>> {
    let text = trim_spec(line);
    if text.len() == 0 || text[0] == 0x23 {
        None
    } else {
        Some(text)
    }
}

/// Whether a line of the process status starts with `Uid:`.
pub open spec fn is_uid_line(line: Seq<u8>) -> bool {
    line.len() >= 4 && line[0] == 0x55 && line[1] == 0x69 && line[2] == 0x64 && line[3] == 0x3a
}

/// Whether the second word of a line is `0`, words being what white space
/// separates.
pub open spec fn second_word_is_zero(line: Seq<u8>) -> bool {
    let first = trim_start_index(line, 0);
    let second = trim_start_index(line, word_end(line, first));
    word_end(line, second) == second + 1 && line[second] == 0x30
}

/// Whether the process status, read from `at` on, names user 0: the first
/// line that starts with `Uid:` decides, by its second word.
pub open spec fn names_root_from(status: Seq<u8>, at: int) -> bool
    decreases status.len() - at,
{
    if at < 0 || at >= status.len() {
        false
    } else {
        let end = line_end(status, at);
        let line = status.subrange(at, end);
        if is_uid_line(line) {
            second_word_is_zero(line)
        } else if end < status.len() {
            names_root_from(status, end + 1)
        } else {
            false
        }
    }
}

/// Calls `Sha256::digest` of the `sha2` crate. The claim: the 32 bytes
/// that come back are the digest of `data`.
#[verifier::external_body]
fn sha256_digest(data: &[u8]) -> (digest: [u8; 32])
    ensures
        digest@ == sha256(data@),
{
    Sha256::digest(data).into()
}

/// Derives the 32-byte key from a passphrase: the SHA-256 digest of its
/// bytes.
pub fn ascii_to_key(s: &str) -> (key: [u8; 32])
    ensures
        key@ == sha256(vstd::utf8::encode_utf8(s@)),
{
    sha256_digest(s.as_bytes())
}

/// Reads the direction that a field names.
fn direction_of(field: &[u8]) -> (direction: Direction)
    ensures
        direction == direction_spec(field@),
{
    if field.len() == 2 && (field[0] == 0x69 || field[0] == 0x49) && (field[1] == 0x6e
        || field[1] == 0x4e) {
        Direction::In
    } else {
        Direction::Out
    }
}

/// Reads the cipher mode that a field names.
fn mode_of(field: &[u8]) -> (mode: CipherMode)
    ensures
        mode == mode_spec(field@),
{
    if field.len() == 1 && (field[0] == 0x46 || field[0] == 0x66) {
        CipherMode::Fast
    } else if field.len() == 1 && (field[0] == 0x53 || field[0] == 0x73) {
        CipherMode::Standard
    } else {
        CipherMode::Auto
    }
}

/// Parses rule lines of the form
/// `queue:direction:name:passphrase[:mode][:mtu]`.
pub fn parse_config(input: &[String]) -> (result: Result<Vec<FilterConfig>, ConfigError>)
    ensures
        match parse_config_spec(line_bytes(input@)) {
            Ok(rules) => result matches Ok(configs) && rule_views(configs@) == rules,
            Err(error) => result == Err::<Vec<FilterConfig>, ConfigError>(error),
        },
{
    let count = input.len();
    let mut configs: Vec<FilterConfig> = Vec::with_capacity(count);
    let mut seen_queues: HashSet<u16> = HashSet::with_capacity(count);
    let ghost lines = line_bytes(input@);
    let mut index: usize = 0;
    proof {
        assert(lines.take(0) =~= Seq::<Seq<u8>>::empty());
        assert(rule_views(configs@) =~= Seq::<Rule>::empty());
    }
    while index < count
        invariant
            count == input@.len(),
            index <= count,
            lines == line_bytes(input@),
            parse_config_spec(lines.take(index as int)) == Ok::<Seq<Rule>, ConfigError>(
                rule_views(configs@),
            ),
            forall|queue_num: u16|
                seen_queues@.contains(queue_num) <==> has_queue(rule_views(configs@), queue_num),
        decreases count - index,
    {
        let ghost rules = rule_views(configs@);
        let ghost done = lines.take(index as int);
        let ghost more = lines.take(index + 1);
        let line = input[index].as_str().as_bytes();
        proof {
            assert(more.drop_last() =~= done);
            assert(more.last() == lines[index as int]);
            assert(line@ == lines[index as int]);
        }
        let starts = field_starts(line);
        let ghost fields = split_fields(line@);
        let queue_num = match parse_u16(field(line, &starts, 0)) {
            Some(number) => number,
            None => {
                proof {
                    lemma_parse_error_stays(lines, index + 1, ConfigError::InvalidData);
                }
                return Err(ConfigError::InvalidData);
            },
        };
        if !seen_queues.insert(queue_num) {
            proof {
                lemma_parse_error_stays(lines, index + 1, ConfigError::DuplicateQueue);
            }
            return Err(ConfigError::DuplicateQueue);
        }
        if starts.len() < 4 {
            proof {
                lemma_parse_error_stays(lines, index + 1, ConfigError::InvalidData);
            }
            return Err(ConfigError::InvalidData);
        }
        let direction = direction_of(field(line, &starts, 1));
        let passphrase = field(line, &starts, 3);
        let bounds = trim_bounds(passphrase);
        let key = sha256_digest(&passphrase[bounds.0..bounds.1]);
        let mut mode = CipherMode::Auto;
        let mut mtu = DEFAULT_MTU;
        if starts.len() >= 5 {
            mode = mode_of(field(line, &starts, 4));
            match parse_u16(field(line, &starts, starts.len() - 1)) {
                Some(number) => {
                    mtu = number as usize;
                },
                None => {},
            }
        }
        let config = FilterConfig { queue_num, direction, key, mtu, mode };
        configs.push(config);
        proof {
            assert(config@ == rule_of(queue_num, fields));
            assert(rule_views(configs@) =~= rules.push(config@));
            assert forall|other: u16|
                seen_queues@.contains(other) <==> has_queue(
                    rule_views(configs@),
                    other,
                ) by {
                let now = rule_views(configs@);
                if has_queue(rules, other) {
                    let j = choose|j: int|
                        0 <= j < rules.len() && (#[trigger] rules[j]).queue_num == other;
                    assert(now[j].queue_num == other);
                }
                if other == queue_num {
                    assert(now[now.len() - 1].queue_num == other);
                }
                if has_queue(now, other) && other != queue_num {
                    let j = choose|j: int|
                        0 <= j < now.len() && (#[trigger] now[j]).queue_num == other;
                    assert(rules[j].queue_num == other);
                }
            }
        }
        index += 1;
    }
    proof {
        assert(lines.take(count as int) =~= lines);
    }
    Ok(configs)
}

/// Finds the rule text in a line of the rule file: where it starts and
/// ends, or `None` for a blank line and for a comment.
pub fn rule_line_bounds(line: &[u8]) -> (bounds: Option<(usize, usize)>)
    ensures
        match rule_text(line@) {
            None => bounds is None,
            Some(text) => bounds matches Some(found) && found.0 <= found.1 <= line@.len()
                && line@.subrange(found.0 as int, found.1 as int) == text,
        },
{
    let found = trim_bounds(line);
    proof {
        assert(line@.subrange(found.0 as int, found.1 as int).len() == found.1 - found.0);
        if found.0 < found.1 {
            assert(line@.subrange(found.0 as int, found.1 as int)[0] == line@[found.0 as int]);
        }
    }
    if found.0 == found.1 || line[found.0] == 0x23 {
        None
    } else {
        Some(found)
    }
}

/// Tells whether the process status names user 0 as the real user: the
/// second word of its first `Uid:` line is `0`.
pub fn status_names_root(status: &[u8]) -> (root: bool)
    ensures
        root == names_root_from(status@, 0),
{
    let len = status.len();
    let mut at: usize = 0;
    while at < len
        invariant
            len == status@.len(),
            at <= len,
            names_root_from(status@, at as int) == names_root_from(status@, 0),
        decreases len - at,
    {
        let mut end: usize = at;
        while end < len && status[end] != 0x0a
            invariant
                len == status@.len(),
                at <= end <= len,
                line_end(status@, end as int) == line_end(status@, at as int),
            decreases len - end,
        {
            end += 1;
        }
        proof {
            assert(line_end(status@, end as int) == end);
        }
        let line = &status[at..end];
        if line.len() >= 4 && line[0] == 0x55 && line[1] == 0x69 && line[2] == 0x64 && line[3]
            == 0x3a {
            let first = skip_spaces(line, 0);
            let first_end = skip_word(line, first);
            let second = skip_spaces(line, first_end);
            let second_end = skip_word(line, second);
            return second_end - second == 1 && line[second] == 0x30;
        }
        proof {
            assert(line_end(status@, at as int) == end);
            assert(line@ == status@.subrange(at as int, end as int));
            assert(!is_uid_line(line@));
        }
        if end == len {
            return false;
        }
        at = end + 1;
    }
    false
}

/// Finds the rule of a queue: the first rule with that queue number.
pub fn rule_for_queue(configs: &[FilterConfig], queue_num: u16) -> (found: Option<usize>)
    ensures
        match found {
            Some(index) => index < configs@.len() && configs@[index as int].queue_num == queue_num
                && forall|j: int| 0 <= j < index ==> configs@[j].queue_num != queue_num,
            None => forall|j: int| 0 <= j < configs@.len() ==> configs@[j].queue_num != queue_num,
        },
{
    let count = configs.len();
    let mut index: usize = 0;
    while index < count
        invariant
            count == configs@.len(),
            index <= count,
            forall|j: int| 0 <= j < index ==> configs@[j].queue_num != queue_num,
        decreases count - index,
    {
        if configs[index].queue_num == queue_num {
            return Some(index);
        }
        index += 1;
    }
    None
}

/// Once a line is refused, the lines behind it do not change the error.
proof fn lemma_parse_error_stays(lines: Seq<Seq<u8>>, count: int, error: ConfigError)
    requires
        0 <= count <= lines.len(),
        parse_config_spec(lines.take(count)) == Err::<Seq<Rule>, ConfigError>(error),
    ensures
        parse_config_spec(lines) == Err::<Seq<Rule>, ConfigError>(error),
    decreases lines.len() - count,
{
    if count == lines.len() {
        assert(lines.take(count) =~= lines);
    } else {
        assert(lines.take(count + 1).drop_last() =~= lines.take(count));
        lemma_parse_error_stays(lines, count + 1, error);
    }
}

/// Rules that were accepted are one for each line, in the order of the
/// lines, and no two of them are for the same queue.
pub proof fn lemma_parsed_queues_unique(lines: Seq<Seq<u8>>)
    requires
        parse_config_spec(lines) is Ok,
    ensures
        ({
            let rules = parse_config_spec(lines)->Ok_0;
            &&& rules.len() == lines.len()
            &&& forall|i: int, j: int|
                0 <= i < j < rules.len() ==> (#[trigger] rules[i]).queue_num != (
                #[trigger] rules[j]).queue_num
        }),
    decreases lines.len(),
{
    if lines.len() > 0 {
        let earlier = parse_config_spec(lines.drop_last())->Ok_0;
        lemma_parsed_queues_unique(lines.drop_last());
        let rules = parse_config_spec(lines)->Ok_0;
        assert forall|i: int, j: int| 0 <= i < j < rules.len() implies (#[trigger] rules[i]).queue_num
            != (#[trigger] rules[j]).queue_num by {
            if j == rules.len() - 1 {
                assert(earlier[i].queue_num == rules[i].queue_num);
            } else {
                assert(earlier[i] == rules[i] && earlier[j] == rules[j]);
            }
        }
    }
}

} // verus!
