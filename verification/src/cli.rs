//! The command line: which command the arguments name, and the text of
//! the systemd units that start one worker per rule.

use vstd::prelude::*;
use vstd::string::StringExecFns;
use crate::config::FilterConfig;
use crate::text::{parse_u16, parse_u16_spec};

verus! {

/// What the program is asked to do.
#[derive(Debug, Clone, Copy, PartialEq, Eq, Structural)]
pub enum Command {
    /// Run the worker of one queue.
    Start(u16),
    /// Run one worker for every rule.
    RunAll,
    /// Write systemd unit files for every rule.
    GenerateUnits,
    /// Print the version.
    Version,
}

/// The command that the arguments name, the program's own name being the
/// first of them: `--generate-units`, `--version` or `-V`, `queue` followed
/// by a queue number (0 where that is no 16-bit number), and `RunAll` for
/// anything else.
pub open spec fn command_spec(args: Seq<String>) -> Command {
    if args.len() > 1 {
        let verb = args[1]@;
        if verb == "--generate-units"@ {
            Command::GenerateUnits
        } else if verb == "--version"@ || verb == "-V"@ {
            Command::Version
        } else if verb == "queue"@ && args.len() > 2 {
            Command::Start(
                match parse_u16_spec(vstd::utf8::encode_utf8(args[2]@)) {
                    Some(number) => number,
                    None => 0u16,
                },
            )
        } else {
            Command::RunAll
        }
    } else {
        Command::RunAll
    }
}

/// The character of a decimal digit.
pub open spec fn digit_char(digit: nat) -> char {
    (0x30 + digit) as char
}

/// A number in decimal, without leading zeros.
pub open spec fn decimal(number: nat) -> Seq<char>
    decreases number,
{
    if number < 10 {
        seq![digit_char(number)]
    } else {
        decimal(number / 10).push(digit_char(number % 10))
    }
}

/// The name of the service unit of a queue.
pub open spec fn service_unit_name_spec(queue_num: u16) -> Seq<char> {
    "nf_wgobfs@"@ + decimal(queue_num as nat) + ".service"@
}

/// The text of the service unit of a queue.
pub open spec fn service_unit_spec(queue_num: u16) -> Seq<char> {
    "[Unit]\nDescription=NFQUEUE WireGuard Obfuscator queue "@ + decimal(queue_num as nat)
        + "\nAfter=network.target\n\n[Service]\nType=simple\nExecStart=/usr/bin/nf_wgobfs queue "@
        + decimal(queue_num as nat)
        + "\nRestart=on-failure\n\n[Install]\nWantedBy=multi-user.target\n"@
}

/// The names of the service units of the first `count` rules, with a
/// space between one and the next.
pub open spec fn wanted_units(rules: Seq<FilterConfig>, count: nat) -> Seq<char>
    decreases count,
{
    if count == 0 {
        Seq::<char>::empty()
    } else if count == 1 {
        service_unit_name_spec(rules[0].queue_num)
    } else {
        wanted_units(rules, (count - 1) as nat) + " "@ + service_unit_name_spec(
            rules[count - 1].queue_num,
        )
    }
}

/// The text of the target unit that wants the service units of all rules.
pub open spec fn target_unit_spec(rules: Seq<FilterConfig>) -> Seq<char> {
    "[Unit]\nDescription=NFQUEUE WireGuard Obfuscator (all queues)\nRequires=multi-user.target\nWants="@
        + wanted_units(rules, rules.len()) + "\n\n[Install]\nWantedBy=multi-user.target\n"@
}

/// Tells whether `text` is the word `word`.
fn is_word(text: &String, word: &str) -> (same: bool)
    ensures
        same == (text@ == word@),
{
    let other = String::from_str(word);
    *text == other
}

/// Finds the command that the arguments name.
pub fn parse_command(args: &[String]) -> (command: Command)
    ensures
        command == command_spec(args@),
{
    if args.len() > 1 {
        let verb = &args[1];
        if is_word(verb, "--generate-units") {
            Command::GenerateUnits
        } else if is_word(verb, "--version") || is_word(verb, "-V") {
            Command::Version
        } else if is_word(verb, "queue") && args.len() > 2 {
            match parse_u16(args[2].as_str().as_bytes()) {
                Some(number) => Command::Start(number),
                None => Command::Start(0),
            }
        } else {
            Command::RunAll
        }
    } else {
        Command::RunAll
    }
}

/// The string of one decimal digit.
fn digit_str(digit: u16) -> (text: &'static str)
    requires
        digit < 10,
    ensures
        text@ == seq![digit_char(digit as nat)],
{
    proof {
        reveal_strlit("0");
        reveal_strlit("1");
        reveal_strlit("2");
        reveal_strlit("3");
        reveal_strlit("4");
        reveal_strlit("5");
        reveal_strlit("6");
        reveal_strlit("7");
        reveal_strlit("8");
        reveal_strlit("9");
    }
    let text = if digit == 0 {
        "0"
    } else if digit == 1 {
        "1"
    } else if digit == 2 {
        "2"
    } else if digit == 3 {
        "3"
    } else if digit == 4 {
        "4"
    } else if digit == 5 {
        "5"
    } else if digit == 6 {
        "6"
    } else if digit == 7 {
        "7"
    } else if digit == 8 {
        "8"
    } else {
        "9"
    };
    proof {
        assert(text@ =~= seq![digit_char(digit as nat)]);
    }
    text
}

/// Appends a number in decimal to `out`.
fn push_decimal(out: &mut String, number: u16)
    ensures
        final(out)@ == old(out)@ + decimal(number as nat),
    decreases number,
{
    if number >= 10 {
        push_decimal(out, number / 10);
    }
    out.append(digit_str(number % 10));
    proof {
        if number >= 10 {
            assert(out@ =~= old(out)@ + decimal(number as nat));
        }
    }
}

/// Writes a number in decimal.
pub fn decimal_string(number: u16) -> (text: String)
    ensures
        text@ == decimal(number as nat),
{
    let mut text = String::new();
    push_decimal(&mut text, number);
    proof {
        assert(Seq::<char>::empty() + decimal(number as nat) =~= decimal(number as nat));
    }
    text
}

/// Names the service unit of a queue.
pub fn service_unit_name(queue_num: u16) -> (name: String)
    ensures
        name@ == service_unit_name_spec(queue_num),
{
    let mut name = String::from_str("nf_wgobfs@");
    push_decimal(&mut name, queue_num);
    name.append(".service");
    name
}

/// Writes the service unit that runs the worker of one queue.
pub fn service_unit(queue_num: u16) -> (unit: String)
    ensures
        unit@ == service_unit_spec(queue_num),
{
    let mut unit = String::from_str("[Unit]\nDescription=NFQUEUE WireGuard Obfuscator queue ");
    push_decimal(&mut unit, queue_num);
    unit.append(
        "\nAfter=network.target\n\n[Service]\nType=simple\nExecStart=/usr/bin/nf_wgobfs queue ",
    );
    push_decimal(&mut unit, queue_num);
    unit.append("\nRestart=on-failure\n\n[Install]\nWantedBy=multi-user.target\n");
    unit
}

/// Writes the target unit that wants the service units of all rules.
pub fn target_unit(configs: &[FilterConfig]) -> (unit: String)
    ensures
        unit@ == target_unit_spec(configs@),
{
    let mut wants = String::new();
    let count = configs.len();
    let mut index: usize = 0;
    while index < count
        invariant
            count == configs@.len(),
            index <= count,
            wants@ == wanted_units(configs@, index as nat),
        decreases count - index,
    {
        if index > 0 {
            wants.append(" ");
        }
        let name = service_unit_name(configs[index].queue_num);
        proof {
            if index == 0 {
                assert(Seq::<char>::empty() + name@ =~= name@);
            }
        }
        wants.append(name.as_str());
        index += 1;
    }
    let mut unit = String::from_str(
        "[Unit]\nDescription=NFQUEUE WireGuard Obfuscator (all queues)\nRequires=multi-user.target\nWants=",
    );
    unit.append(wants.as_str());
    unit.append("\n\n[Install]\nWantedBy=multi-user.target\n");
    unit
}

} // verus!
