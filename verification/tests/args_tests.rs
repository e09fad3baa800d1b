use fledge_plugin_maze::args::{parse_args, parse_u64, parse_usize, Args, ArgsOutcome};

fn parse(words: &[&str]) -> ArgsOutcome {
    let mut v = vec!["fledge-maze".to_string()];
    v.extend(words.iter().map(|w| w.to_string()));
    parse_args(&v)
}

fn defaults() -> Args {
    Args { width: 20, height: 10, seed: None, solve: false, animate: false, ascii: false }
}

#[test]
fn no_options_give_defaults() {
    assert_eq!(parse(&[]), ArgsOutcome::Run(defaults()));
}

#[test]
fn size_and_seed() {
    assert_eq!(
        parse(&["--width", "30", "--height", "15", "--seed", "42"]),
        ArgsOutcome::Run(Args { width: 30, height: 15, seed: Some(42), ..defaults() })
    );
    assert_eq!(
        parse(&["-w", "5", "-h", "4", "-s", "7"]),
        ArgsOutcome::Run(Args { width: 5, height: 4, seed: Some(7), ..defaults() })
    );
}

#[test]
fn flags() {
    assert_eq!(parse(&["--solve"]), ArgsOutcome::Run(Args { solve: true, ..defaults() }));
    assert_eq!(parse(&["--ascii"]), ArgsOutcome::Run(Args { ascii: true, ..defaults() }));
    assert_eq!(
        parse(&["--animate"]),
        ArgsOutcome::Run(Args { animate: true, solve: true, ..defaults() })
    );
    assert_eq!(
        parse(&["-a", "--ascii"]),
        ArgsOutcome::Run(Args { animate: true, solve: true, ascii: true, ..defaults() })
    );
}

#[test]
fn help() {
    assert_eq!(parse(&["--help"]), ArgsOutcome::Help);
    // `-h` is the height when a value follows, help when it is last
    assert_eq!(parse(&["-h"]), ArgsOutcome::Help);
    assert_eq!(parse(&["-h", "12"]), ArgsOutcome::Run(Args { height: 12, ..defaults() }));
    assert_eq!(parse(&["--solve", "--help", "--bogus"]), ArgsOutcome::Help);
}

#[test]
fn unknown_option() {
    assert_eq!(parse(&["--bogus"]), ArgsOutcome::UnknownOption(1));
    assert_eq!(parse(&["--solve", "x"]), ArgsOutcome::UnknownOption(2));
    assert_eq!(parse(&["--width", "9", "nine"]), ArgsOutcome::UnknownOption(3));
}

#[test]
fn bad_numbers_fall_back() {
    assert_eq!(parse(&["--width", "abc"]), ArgsOutcome::Run(defaults()));
    assert_eq!(parse(&["--width"]), ArgsOutcome::Run(defaults()));
    assert_eq!(parse(&["--height", "-3"]), ArgsOutcome::Run(defaults()));
    assert_eq!(parse(&["--seed", "x"]), ArgsOutcome::Run(defaults()));
    assert_eq!(parse(&["--seed"]), ArgsOutcome::Run(defaults()));
    assert_eq!(parse(&["--width", "+25"]), ArgsOutcome::Run(Args { width: 25, ..defaults() }));
}

#[test]
fn size_limits() {
    assert_eq!(parse(&["--width", "1"]), ArgsOutcome::TooSmall);
    assert_eq!(parse(&["--height", "0"]), ArgsOutcome::TooSmall);
    assert_eq!(parse(&["--width", "101"]), ArgsOutcome::TooLarge);
    assert_eq!(parse(&["--height", "51"]), ArgsOutcome::TooLarge);
    assert_eq!(parse(&["--width", "1", "--height", "99"]), ArgsOutcome::TooSmall);
    assert_eq!(
        parse(&["--width", "100", "--height", "50"]),
        ArgsOutcome::Run(Args { width: 100, height: 50, ..defaults() })
    );
    assert_eq!(
        parse(&["--width", "2", "--height", "2"]),
        ArgsOutcome::Run(Args { width: 2, height: 2, ..defaults() })
    );
}

#[test]
fn number_reading() {
    assert_eq!(parse_u64("0"), Some(0));
    assert_eq!(parse_u64("+17"), Some(17));
    assert_eq!(parse_u64("18446744073709551615"), Some(u64::MAX));
    assert_eq!(parse_u64("18446744073709551616"), None);
    assert_eq!(parse_u64(""), None);
    assert_eq!(parse_u64("+"), None);
    assert_eq!(parse_u64("-1"), None);
    assert_eq!(parse_u64("1 2"), None);
    assert_eq!(parse_u64("12a"), None);
    assert_eq!(parse_u64("007"), Some(7));
    for s in ["0", "+9", "123456", "99999999999999999999", "x", "", "+", "++1"] {
        assert_eq!(parse_u64(s), s.parse::<u64>().ok());
        assert_eq!(parse_usize(s), s.parse::<usize>().ok());
    }
}
