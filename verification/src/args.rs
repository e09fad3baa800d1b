//! Reading the command line: the maze size, the seed and the display flags.

use vstd::prelude::*;

verus! {

broadcast use vstd::string::axiom_spec_iter;

/// The settings that the command line chooses.
#[derive(Clone, Copy, Debug, PartialEq, Eq)]
pub struct Args {
    pub width: usize,
    pub height: usize,
    pub seed: Option<u64>,
    pub solve: bool,
    pub animate: bool,
    pub ascii: bool,
}

/// What reading the command line comes to.
#[derive(Clone, Copy, Debug, PartialEq, Eq)]
pub enum ArgsOutcome {
    /// Draw a maze with these settings.
    Run(Args),
    /// Show the usage text and stop successfully.
    Help,
    /// The argument at this position is not an option; show it with the
    /// usage text and stop with a failure.
    UnknownOption(usize),
    /// Width or height is below 2.
    TooSmall,
    /// Width is above 100 or height above 50.
    TooLarge,
}

pub open spec fn is_digit(c: char) -> bool {
    48 <= (c as u32) <= 57
}

/// The number that a string of decimal digits denotes.
pub open spec fn digits_value(s: Seq<char>) -> nat
    decreases s.len(),
{
    if s.len() == 0 {
        0
    } else {
        digits_value(s.drop_last()) * 10 + ((s.last() as u32) - 48) as nat
    }
}

/// The digits of an unsigned decimal numeral: the text without one leading `+`.
pub open spec fn numeral_digits(s: Seq<char>) -> Seq<char> {
    if s.len() > 0 && s[0] == '+' {
        s.drop_first()
    } else {
        s
    }
}

/// What `str::parse` gives for an unsigned integer type whose largest value
/// is `max`: an optional `+` and then one or more decimal digits, whose value
/// must not exceed `max`.
pub open spec fn parse_unsigned(s: Seq<char>, max: nat) -> Option<nat> {
    let d = numeral_digits(s);
    if d.len() > 0 && (forall|i: int| 0 <= i < d.len() ==> is_digit(#[trigger] d[i])) && digits_value(d)
        <= max {
        Some(digits_value(d))
    } else {
        None
    }
}

pub open spec fn default_args() -> Args {
    Args { width: 20, height: 10, seed: None, solve: false, animate: false, ascii: false }
}

/// Whether the size in `a` is allowed.
pub open spec fn size_outcome(a: Args) -> ArgsOutcome {
    if a.width < 2 || a.height < 2 {
        ArgsOutcome::TooSmall
    } else if a.width > 100 || a.height > 50 {
        ArgsOutcome::TooLarge
    } else {
        ArgsOutcome::Run(a)
    }
}

/// The value the option at position `i` takes from the argument after it,
/// with `dflt` where there is none or it is no number up to `max`.
pub open spec fn option_value(args: Seq<Seq<char>>, i: int, max: nat, dflt: nat) -> nat {
    if i + 1 < args.len() {
        match parse_unsigned(args[i + 1], max) {
            Some(n) => n,
            None => dflt,
        }
    } else {
        dflt
    }
}

/// Reading the arguments from position `i` on, with settings `a` so far.
pub open spec fn scan_args(args: Seq<Seq<char>>, i: int, a: Args) -> ArgsOutcome
    decreases args.len() + 1 - i,
{
    if i < 0 || i >= args.len() {
        size_outcome(a)
    } else {
        let s = args[i];
        if s == "--width"@ || s == "-w"@ {
            let v = option_value(args, i, usize::MAX as nat, 20);
            scan_args(args, i + 2, Args { width: v as usize, ..a })
        } else if (s == "--height"@ || s == "-h"@) && i + 1 < args.len() {
            let v = option_value(args, i, usize::MAX as nat, 10);
            scan_args(args, i + 2, Args { height: v as usize, ..a })
        } else if s == "--seed"@ || s == "-s"@ {
            let v = if i + 1 < args.len() {
                match parse_unsigned(args[i + 1], u64::MAX as nat) {
                    Some(n) => Some(n as u64),
                    None => None,
                }
            } else {
                None
            };
            scan_args(args, i + 2, Args { seed: v, ..a })
        } else if s == "--solve"@ {
            scan_args(args, i + 1, Args { solve: true, ..a })
        } else if s == "--animate"@ || s == "-a"@ {
            scan_args(args, i + 1, Args { animate: true, solve: true, ..a })
        } else if s == "--ascii"@ {
            scan_args(args, i + 1, Args { ascii: true, ..a })
        } else if s == "--help"@ || s == "-h"@ {
            ArgsOutcome::Help
        } else {
            ArgsOutcome::UnknownOption(i as usize)
        }
    }
}

/// The characters of `s`.
fn chars_of(s: &str) -> (v: Vec<char>)
    ensures
        v@ == s@,
{
    let mut v: Vec<char> = Vec::new();
    for c in it: s.chars()
        invariant
            v@ == it.seq().take(it.index() as int),
    {
        v.push(c);
    }
    v
}

/// Whether `a` and `b` hold the same text.
fn same_text(a: &str, b: &str) -> (r: bool)
    ensures
        r == (a@ == b@),
{
    let x = chars_of(a);
    let y = chars_of(b);
    if x.len() != y.len() {
        assert(x@.len() != y@.len());
        return false;
    }
    let mut i: usize = 0;
    while i < x.len()
        invariant
            x@ == a@,
            y@ == b@,
            x@.len() == y@.len(),
            i <= x@.len(),
            forall|j: int| 0 <= j < i ==> x@[j] == y@[j],
        decreases x@.len() - i,
    {
        if x[i] != y[i] {
            assert(x@[i as int] != y@[i as int]);
            assert(x@ != y@);
            return false;
        }
        i += 1;
    }
    assert(x@ =~= y@);
    true
}

proof fn lemma_digits_prefix(s: Seq<char>, k: int)
    requires
        0 <= k <= s.len(),
    ensures
        digits_value(s.subrange(0, k)) <= digits_value(s),
    decreases s.len(),
{
    if k < s.len() {
        assert(s.drop_last().subrange(0, k) =~= s.subrange(0, k));
        lemma_digits_prefix(s.drop_last(), k);
    } else {
        assert(s.subrange(0, k) =~= s);
    }
}

/// Reads `s` as an unsigned decimal number up to `u64::MAX`, as
/// `str::parse::<u64>` does.
pub fn parse_u64(s: &str) -> (r: Option<u64>)
    ensures
        r == match parse_unsigned(s@, u64::MAX as nat) {
            Some(n) => Some(n as u64),
            None => None::<u64>,
        },
{
    let cs = chars_of(s);
    let mut start: usize = 0;
    if cs.len() > 0 && cs[0] == '+' {
        start = 1;
    }
    let ghost d = numeral_digits(s@);
    assert(d =~= cs@.subrange(start as int, cs@.len() as int));
    if start >= cs.len() {
        return None;
    }
    let mut val: u64 = 0;
    let mut i: usize = start;
    while i < cs.len()
        invariant
            cs@ == s@,
            d == numeral_digits(s@),
            start <= i <= cs@.len(),
            d == cs@.subrange(start as int, cs@.len() as int),
            d.len() > 0,
            forall|j: int| 0 <= j < i - start ==> is_digit(#[trigger] d[j]),
            val == digits_value(d.subrange(0, i - start)),
        decreases cs@.len() - i,
    {
        let c = cs[i];
        let k = i - start;
        assert(c == d[k as int]);
        let code = c as u32;
        if code < 48 || code > 57 {
            assert(!is_digit(d[k as int]));
            assert(numeral_digits(s@) == d);
            assert(!(forall|j: int| 0 <= j < d.len() ==> is_digit(#[trigger] d[j])));
            assert(parse_unsigned(s@, u64::MAX as nat) is None);
            return None;
        }
        assert(d.subrange(0, k + 1).drop_last() =~= d.subrange(0, k as int));
        let digit = (code - 48) as u64;
        match val.checked_mul(10) {
            None => {
                proof {
                    lemma_digits_prefix(d, k + 1);
                    assert(digits_value(d.subrange(0, k + 1)) == val * 10 + digit);
                    assert(digits_value(d.subrange(0, k + 1)) > u64::MAX);
                    assert(parse_unsigned(s@, u64::MAX as nat) is None);
                }
                return None;
            },
            Some(t) => match t.checked_add(digit) {
                None => {
                    proof {
                        lemma_digits_prefix(d, k + 1);
                    }
                    return None;
                },
                Some(v) => {
                    val = v;
                },
            },
        }
        i += 1;
    }
    assert(d.subrange(0, d.len() as int) =~= d);
    Some(val)
}

/// Reads `s` as an unsigned decimal number up to `usize::MAX`, as
/// `str::parse::<usize>` does.
pub fn parse_usize(s: &str) -> (r: Option<usize>)
    ensures
        r == match parse_unsigned(s@, usize::MAX as nat) {
            Some(n) => Some(n as usize),
            None => None::<usize>,
        },
{
    match parse_u64(s) {
        Some(n) => {
            if n <= usize::MAX as u64 {
                Some(n as usize)
            } else {
                None
            }
        },
        None => None,
    }
}

/// Reads the command line, `args[0]` being the program's name: the options
/// `--width`/`-w n`, `--height`/`-h n`, `--seed`/`-s n`, `--solve`,
/// `--animate`/`-a` (which implies `--solve`), `--ascii` and `--help`/`-h`,
/// then checks the size (2 to 100 columns, 2 to 50 rows). A width or height
/// that is missing or no number falls back to 20 or 10, a seed to none.
pub fn parse_args(args: &Vec<String>) -> (r: ArgsOutcome)
    ensures
        r == scan_args(args@.map_values(|s: String| s@), 1, default_args()),
{
    let ghost sv = args@.map_values(|s: String| s@);
    let mut a = Args { width: 20, height: 10, seed: None, solve: false, animate: false, ascii: false };
    let mut i: usize = 1;
    while i < args.len()
        invariant
            1 <= i,
            sv == args@.map_values(|s: String| s@),
            scan_args(sv, i as int, a) == scan_args(sv, 1, default_args()),
        decreases args@.len() - i,
    {
        let s = args[i].as_str();
        assert(s@ == sv[i as int]);
        let has_value = i + 1 < args.len();
        let ghost i0 = i as int;
        let ghost a0 = a;
        assert(sv.len() == args@.len());
        if same_text(s, "--width") || same_text(s, "-w") {
            a.width = if has_value {
                assert(args[i + 1]@ == sv[i + 1]);
                match parse_usize(args[i + 1].as_str()) {
                    Some(n) => n,
                    None => 20,
                }
            } else {
                20
            };
            i = if has_value { i + 2 } else { args.len() };
            assert(a == Args { width: option_value(sv, i0, usize::MAX as nat, 20) as usize, ..a0 });
            assert(scan_args(sv, i0, a0) == scan_args(sv, i0 + 2, a));
            assert(scan_args(sv, i0 + 2, a) == scan_args(sv, i as int, a));
        } else if (same_text(s, "--height") || same_text(s, "-h")) && has_value {
            assert(args[i + 1]@ == sv[i + 1]);
            a.height = match parse_usize(args[i + 1].as_str()) {
                Some(n) => n,
                None => 10,
            };
            i = i + 2;
        } else if same_text(s, "--seed") || same_text(s, "-s") {
            a.seed = if has_value {
                assert(args[i + 1]@ == sv[i + 1]);
                parse_u64(args[i + 1].as_str())
            } else {
                None
            };
            i = if has_value { i + 2 } else { args.len() };
        } else if same_text(s, "--solve") {
            a.solve = true;
            i += 1;
        } else if same_text(s, "--animate") || same_text(s, "-a") {
            a.animate = true;
            a.solve = true;
            i += 1;
        } else if same_text(s, "--ascii") {
            a.ascii = true;
            i += 1;
        } else if same_text(s, "--help") || same_text(s, "-h") {
            return ArgsOutcome::Help;
        } else {
            return ArgsOutcome::UnknownOption(i);
        }
    }
    if a.width < 2 || a.height < 2 {
        return ArgsOutcome::TooSmall;
    }
    if a.width > 100 || a.height > 50 {
        return ArgsOutcome::TooLarge;
    }
    ArgsOutcome::Run(a)
}

proof fn lemma_scan_run(args: Seq<Seq<char>>, i: int, a: Args)
    requires
        a.animate ==> a.solve,
    ensures
        scan_args(args, i, a) matches ArgsOutcome::Run(b) ==> 2 <= b.width <= 100 && 2 <= b.height <= 50
            && (b.animate ==> b.solve),
    decreases args.len() + 1 - i,
{
    if 0 <= i < args.len() {
        let s = args[i];
        if s == "--width"@ || s == "-w"@ {
            let v = option_value(args, i, usize::MAX as nat, 20);
            lemma_scan_run(args, i + 2, Args { width: v as usize, ..a });
        } else if (s == "--height"@ || s == "-h"@) && i + 1 < args.len() {
            let v = option_value(args, i, usize::MAX as nat, 10);
            lemma_scan_run(args, i + 2, Args { height: v as usize, ..a });
        } else if s == "--seed"@ || s == "-s"@ {
            let v = if i + 1 < args.len() {
                match parse_unsigned(args[i + 1], u64::MAX as nat) {
                    Some(n) => Some(n as u64),
                    None => None,
                }
            } else {
                None
            };
            lemma_scan_run(args, i + 2, Args { seed: v, ..a });
        } else if s == "--solve"@ {
            lemma_scan_run(args, i + 1, Args { solve: true, ..a });
        } else if s == "--animate"@ || s == "-a"@ {
            lemma_scan_run(args, i + 1, Args { animate: true, solve: true, ..a });
        } else if s == "--ascii"@ {
            lemma_scan_run(args, i + 1, Args { ascii: true, ..a });
        }
    }
}

/// Whatever the command line, settings that `parse_args` lets through have
/// 2 to 100 columns and 2 to 50 rows, and animation always comes with the
/// solution.
pub proof fn lemma_run_settings(args: Seq<Seq<char>>)
    ensures
        scan_args(args, 1, default_args()) matches ArgsOutcome::Run(a) ==> 2 <= a.width <= 100 && 2
            <= a.height <= 50 && (a.animate ==> a.solve),
{
    lemma_scan_run(args, 1, default_args());
}

/// The option names are all different.
proof fn lemma_option_names_distinct()
    ensures
        "--width"@ != "-w"@,
        "--width"@ != "--height"@,
        "--width"@ != "-h"@,
        "--width"@ != "--seed"@,
        "--width"@ != "-s"@,
        "--width"@ != "--solve"@,
        "--width"@ != "--animate"@,
        "--width"@ != "-a"@,
        "--width"@ != "--ascii"@,
        "--width"@ != "--help"@,
        "-w"@ != "--height"@,
        "-w"@ != "-h"@,
        "-w"@ != "--seed"@,
        "-w"@ != "-s"@,
        "-w"@ != "--solve"@,
        "-w"@ != "--animate"@,
        "-w"@ != "-a"@,
        "-w"@ != "--ascii"@,
        "-w"@ != "--help"@,
        "--height"@ != "-h"@,
        "--height"@ != "--seed"@,
        "--height"@ != "-s"@,
        "--height"@ != "--solve"@,
        "--height"@ != "--animate"@,
        "--height"@ != "-a"@,
        "--height"@ != "--ascii"@,
        "--height"@ != "--help"@,
        "-h"@ != "--seed"@,
        "-h"@ != "-s"@,
        "-h"@ != "--solve"@,
        "-h"@ != "--animate"@,
        "-h"@ != "-a"@,
        "-h"@ != "--ascii"@,
        "-h"@ != "--help"@,
        "--seed"@ != "-s"@,
        "--seed"@ != "--solve"@,
        "--seed"@ != "--animate"@,
        "--seed"@ != "-a"@,
        "--seed"@ != "--ascii"@,
        "--seed"@ != "--help"@,
        "-s"@ != "--solve"@,
        "-s"@ != "--animate"@,
        "-s"@ != "-a"@,
        "-s"@ != "--ascii"@,
        "-s"@ != "--help"@,
        "--solve"@ != "--animate"@,
        "--solve"@ != "-a"@,
        "--solve"@ != "--ascii"@,
        "--solve"@ != "--help"@,
        "--animate"@ != "-a"@,
        "--animate"@ != "--ascii"@,
        "--animate"@ != "--help"@,
        "-a"@ != "--ascii"@,
        "-a"@ != "--help"@,
        "--ascii"@ != "--help"@,
{
    reveal_strlit("--width");
    reveal_strlit("-w");
    reveal_strlit("--height");
    reveal_strlit("-h");
    reveal_strlit("--seed");
    reveal_strlit("-s");
    reveal_strlit("--solve");
    reveal_strlit("--animate");
    reveal_strlit("-a");
    reveal_strlit("--ascii");
    reveal_strlit("--help");
    assert("--width"@.len() != "-w"@.len());
    assert("--width"@.len() != "--height"@.len());
    assert("--width"@.len() != "-h"@.len());
    assert("--width"@.len() != "--seed"@.len());
    assert("--width"@.len() != "-s"@.len());
    assert("--width"@[2] != "--solve"@[2]);
    assert("--width"@.len() != "--animate"@.len());
    assert("--width"@.len() != "-a"@.len());
    assert("--width"@[2] != "--ascii"@[2]);
    assert("--width"@.len() != "--help"@.len());
    assert("-w"@.len() != "--height"@.len());
    assert("-w"@[1] != "-h"@[1]);
    assert("-w"@.len() != "--seed"@.len());
    assert("-w"@[1] != "-s"@[1]);
    assert("-w"@.len() != "--solve"@.len());
    assert("-w"@.len() != "--animate"@.len());
    assert("-w"@[1] != "-a"@[1]);
    assert("-w"@.len() != "--ascii"@.len());
    assert("-w"@.len() != "--help"@.len());
    assert("--height"@.len() != "-h"@.len());
    assert("--height"@.len() != "--seed"@.len());
    assert("--height"@.len() != "-s"@.len());
    assert("--height"@.len() != "--solve"@.len());
    assert("--height"@.len() != "--animate"@.len());
    assert("--height"@.len() != "-a"@.len());
    assert("--height"@.len() != "--ascii"@.len());
    assert("--height"@.len() != "--help"@.len());
    assert("-h"@.len() != "--seed"@.len());
    assert("-h"@[1] != "-s"@[1]);
    assert("-h"@.len() != "--solve"@.len());
    assert("-h"@.len() != "--animate"@.len());
    assert("-h"@[1] != "-a"@[1]);
    assert("-h"@.len() != "--ascii"@.len());
    assert("-h"@.len() != "--help"@.len());
    assert("--seed"@.len() != "-s"@.len());
    assert("--seed"@.len() != "--solve"@.len());
    assert("--seed"@.len() != "--animate"@.len());
    assert("--seed"@.len() != "-a"@.len());
    assert("--seed"@.len() != "--ascii"@.len());
    assert("--seed"@[2] != "--help"@[2]);
    assert("-s"@.len() != "--solve"@.len());
    assert("-s"@.len() != "--animate"@.len());
    assert("-s"@[1] != "-a"@[1]);
    assert("-s"@.len() != "--ascii"@.len());
    assert("-s"@.len() != "--help"@.len());
    assert("--solve"@.len() != "--animate"@.len());
    assert("--solve"@.len() != "-a"@.len());
    assert("--solve"@[2] != "--ascii"@[2]);
    assert("--solve"@.len() != "--help"@.len());
    assert("--animate"@.len() != "-a"@.len());
    assert("--animate"@.len() != "--ascii"@.len());
    assert("--animate"@.len() != "--help"@.len());
    assert("-a"@.len() != "--ascii"@.len());
    assert("-a"@.len() != "--help"@.len());
    assert("--ascii"@.len() != "--help"@.len());
}

/// The display flags take no value: reading a command line at `--solve`,
/// `--animate`/`-a` or `--ascii` comes to reading the rest of it, from the
/// next argument on, with that flag set (`--animate` setting `--solve` too).
pub proof fn lemma_flags_take_no_value(args: Seq<Seq<char>>, i: int, a: Args)
    requires
        0 <= i < args.len(),
    ensures
        args[i] == "--solve"@ ==> scan_args(args, i, a) == scan_args(args, i + 1, Args { solve: true, ..a }),
        args[i] == "--animate"@ || args[i] == "-a"@ ==> scan_args(args, i, a) == scan_args(
            args,
            i + 1,
            Args { animate: true, solve: true, ..a },
        ),
        args[i] == "--ascii"@ ==> scan_args(args, i, a) == scan_args(args, i + 1, Args { ascii: true, ..a }),
{
    lemma_option_names_distinct();
}

/// The size and seed options take the next argument as their value: reading
/// at `--width`/`-w`, `--seed`/`-s`, or `--height`/`-h` with an argument
/// after it, comes to reading from the argument after the value, with the
/// number that value gives (or the default for the size, none for the
/// seed, when it is no number).
pub proof fn lemma_options_take_a_value(args: Seq<Seq<char>>, i: int, a: Args)
    requires
        0 <= i,
        i + 1 < args.len(),
    ensures
        args[i] == "--width"@ || args[i] == "-w"@ ==> scan_args(args, i, a) == scan_args(
            args,
            i + 2,
            Args {
                width: match parse_unsigned(args[i + 1], usize::MAX as nat) {
                    Some(n) => n as usize,
                    None => 20,
                },
                ..a
            },
        ),
        args[i] == "--height"@ || args[i] == "-h"@ ==> scan_args(args, i, a) == scan_args(
            args,
            i + 2,
            Args {
                height: match parse_unsigned(args[i + 1], usize::MAX as nat) {
                    Some(n) => n as usize,
                    None => 10,
                },
                ..a
            },
        ),
        args[i] == "--seed"@ || args[i] == "-s"@ ==> scan_args(args, i, a) == scan_args(
            args,
            i + 2,
            Args {
                seed: match parse_unsigned(args[i + 1], u64::MAX as nat) {
                    Some(n) => Some(n as u64),
                    None => None,
                },
                ..a
            },
        ),
{
    lemma_option_names_distinct();
}

/// Where reading stops: `--help` (or `-h` with nothing after it) asks for
/// the usage text; any argument that is no option is refused by its
/// position; past the last argument the size decides: below 2 in either
/// direction is too small, above 100 columns or 50 rows too large, and
/// otherwise the settings read so far are run.
pub proof fn lemma_scan_stops(args: Seq<Seq<char>>, i: int, a: Args)
    ensures
        0 <= i < args.len() && args[i] == "--help"@ ==> scan_args(args, i, a) == ArgsOutcome::Help,
        0 <= i && i + 1 == args.len() && args[i] == "-h"@ ==> scan_args(args, i, a) == ArgsOutcome::Help,
        0 <= i < args.len() && args[i] != "--width"@ && args[i] != "-w"@ && args[i] != "--height"@ && args[i]
            != "-h"@ && args[i] != "--seed"@ && args[i] != "-s"@ && args[i] != "--solve"@ && args[i] != "--animate"@
            && args[i] != "-a"@ && args[i] != "--ascii"@ && args[i] != "--help"@ ==> scan_args(args, i, a)
            == ArgsOutcome::UnknownOption(i as usize),
        i >= args.len() ==> scan_args(args, i, a) == if a.width < 2 || a.height < 2 {
            ArgsOutcome::TooSmall
        } else if a.width > 100 || a.height > 50 {
            ArgsOutcome::TooLarge
        } else {
            ArgsOutcome::Run(a)
        },
{
    lemma_option_names_distinct();
}

} // verus!
