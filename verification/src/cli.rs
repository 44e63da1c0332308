//! Command-line configuration: flag parsing with its validation helpers.
//!
//! The parser consumes an argument vector (the first entry being the program
//! name) and yields either a complete `Config` or the first error it meets,
//! exactly as `parse_args` describes at the specification level.

use vstd::prelude::*;

verus! {

/// True of an ASCII decimal digit.
pub open spec fn is_dec_digit(c: char) -> bool {
    '0' <= c && c <= '9'
}

/// Numeric value of a decimal digit character.
pub open spec fn digit_val(c: char) -> int {
    c as int - '0' as int
}

/// Every character of `s` is a decimal digit.
pub open spec fn all_digits(s: Seq<char>) -> bool {
    forall|i: int| 0 <= i < s.len() ==> is_dec_digit(s[i])
}

/// The integer denoted by a sequence of decimal digits, most significant first.
pub open spec fn dec_value(s: Seq<char>) -> int
    decreases s.len(),
{
    if s.len() == 0 {
        0
    } else {
        dec_value(s.drop_last()) * 10 + digit_val(s.last())
    }
}

/// What `str::parse::<u32>` accepts: an optional leading `+`, then one or
/// more decimal digits whose value fits in `u32`.
pub open spec fn parse_u32_spec(s: Seq<char>) -> Option<u32> {
    let body = if s.len() > 0 && s[0] == '+' {
        s.skip(1)
    } else {
        s
    };
    if body.len() > 0 && all_digits(body) && dec_value(body) <= u32::MAX {
        Some(dec_value(body) as u32)
    } else {
        None
    }
}

proof fn lemma_dec_value_nonneg(s: Seq<char>)
    requires
        all_digits(s),
    ensures
        dec_value(s) >= 0,
    decreases s.len(),
{
    if s.len() > 0 {
        assert(all_digits(s.drop_last()));
        lemma_dec_value_nonneg(s.drop_last());
    }
}

proof fn lemma_dec_value_step(s: Seq<char>, j: int)
    requires
        0 <= j < s.len(),
    ensures
        dec_value(s.take(j + 1)) == dec_value(s.take(j)) * 10 + digit_val(s[j]),
{
    assert(s.take(j + 1).drop_last() =~= s.take(j));
    assert(s.take(j + 1).last() == s[j]);
}

/// Parses a `u32` from decimal text, as `str::parse::<u32>` would.
pub fn parse_u32(s: &str) -> (r: Option<u32>)
    ensures
        r == parse_u32_spec(s@),
{
    let len = s.unicode_len();
    let start: usize = if len > 0 && s.get_char(0) == '+' {
        1
    } else {
        0
    };
    let ghost body = if s@.len() > 0 && s@[0] == '+' { s@.skip(1) } else { s@ };
    assert(body =~= s@.skip(start as int));
    if start == len {
        return None;
    }
    let mut val: u32 = 0;
    let mut overflow = false;
    let mut i: usize = start;
    while i < len
        invariant
            start <= i <= len,
            len == s@.len(),
            start <= 1,
            body == (if s@.len() > 0 && s@[0] == '+' {
                s@.skip(1)
            } else {
                s@
            }),
            body == s@.skip(start as int),
            body.len() == len - start,
            all_digits(body.take(i - start)),
            !overflow ==> val == dec_value(body.take(i - start)),
            overflow ==> dec_value(body.take(i - start)) > u32::MAX,
        decreases len - i,
    {
        let c = s.get_char(i);
        assert(body[i - start] == s@[i as int]);
        if c < '0' || c > '9' {
            assert(!is_dec_digit(body[i - start]));
            assert(!all_digits(body));
            return None;
        }
        let d: u32 = (c as u32) - 48;
        proof {
            assert(d == digit_val(c));
            lemma_dec_value_step(body, i - start);
            assert(body.take(i - start + 1).drop_last() =~= body.take(i - start));
            assert(all_digits(body.take(i - start + 1)));
            if overflow {
                lemma_dec_value_nonneg(body.take(i - start));
            }
        }
        if !overflow {
            if val > (u32::MAX - d) / 10 {
                proof {
                    assert(val * 10 + d > u32::MAX) by (nonlinear_arith)
                        requires
                            val > (u32::MAX - d) / 10,
                            d <= 9,
                    {
                        assert(val >= (u32::MAX - d) / 10 + 1);
                        assert(((u32::MAX - d) / 10 + 1) * 10 > u32::MAX - d);
                    }
                }
                overflow = true;
            } else {
                proof {
                    assert(val * 10 + d <= u32::MAX) by (nonlinear_arith)
                        requires
                            val <= (u32::MAX - d) / 10,
                            d <= 9,
                    {
                    }
                }
                val = val * 10 + d;
            }
        }
        i = i + 1;
    }
    assert(body.take(len - start) =~= body);
    if overflow {
        None
    } else {
        Some(val)
    }
}

/// Why an argument vector was rejected, or that usage help was asked for.
#[derive(Debug)]
pub enum CliError {
    /// A flag that takes a value stood last on the line.
    MissingValue { flag: String },
    /// The value of a count flag was not a positive integer.
    InvalidInteger { flag: String, value: String },
    /// A flag the program does not know.
    UnknownFlag { flag: String },
    /// `-h` or `--help` was given; not a fault, but parsing stops.
    HelpRequested,
}

/// Specification-level image of `CliError`.
pub ghost enum CliErrorView {
    MissingValue { flag: Seq<char> },
    InvalidInteger { flag: Seq<char>, value: Seq<char> },
    UnknownFlag { flag: Seq<char> },
    HelpRequested,
}

impl View for CliError {
    type V = CliErrorView;

    open spec fn view(&self) -> CliErrorView {
        match self {
            CliError::MissingValue { flag } => CliErrorView::MissingValue { flag: flag@ },
            CliError::InvalidInteger { flag, value } => CliErrorView::InvalidInteger {
                flag: flag@,
                value: value@,
            },
            CliError::UnknownFlag { flag } => CliErrorView::UnknownFlag { flag: flag@ },
            CliError::HelpRequested => CliErrorView::HelpRequested,
        }
    }
}

/// The diagnostic line for each error, as the program prints it.
pub open spec fn error_message_spec(e: CliErrorView) -> Seq<char> {
    match e {
        CliErrorView::MissingValue { flag } => "missing argument to "@ + flag,
        CliErrorView::InvalidInteger { flag, value } => "invalid argument to "@ + flag
            + ", expected integer got '"@ + value + "'"@,
        CliErrorView::UnknownFlag { flag } => "invalid option "@ + flag,
        CliErrorView::HelpRequested => Seq::empty(),
    }
}

impl CliError {
    /// Renders the single-line diagnostic for this error; empty for a help request.
    pub fn message(&self) -> (r: String)
        ensures
            r@ == error_message_spec(self@),
    {
        match self {
            CliError::MissingValue { flag } => {
                String::from_str("missing argument to ").concat(flag.as_str())
            },
            CliError::InvalidInteger { flag, value } => {
                String::from_str("invalid argument to ").concat(flag.as_str()).concat(
                    ", expected integer got '",
                ).concat(value.as_str()).concat("'")
            },
            CliError::UnknownFlag { flag } => {
                String::from_str("invalid option ").concat(flag.as_str())
            },
            CliError::HelpRequested => String::new(),
        }
    }
}

/// Returns the flag's value when one is present, else the missing-value error.
pub fn verify_exists(flag: &str, val: Option<&String>) -> (r: Result<String, CliError>)
    ensures
        match r {
            Ok(s) => val is Some && s@ == val->0@,
            Err(e) => val is None && e@ == (CliErrorView::MissingValue { flag: flag@ }),
        },
{
    match val {
        Some(s) => Ok(s.clone()),
        None => Err(CliError::MissingValue { flag: flag.to_owned() }),
    }
}

/// Returns the value as a positive integer, else the invalid-integer error.
pub fn verify_integer(flag: &str, val: String) -> (r: Result<u32, CliError>)
    ensures
        match r {
            Ok(n) => parse_u32_spec(val@) == Some(n) && n > 0,
            Err(e) => {
                &&& (parse_u32_spec(val@) is None || parse_u32_spec(val@) == Some(0u32))
                &&& e@ == (CliErrorView::InvalidInteger { flag: flag@, value: val@ })
            },
        },
{
    match parse_u32(val.as_str()) {
        Some(n) if n > 0 => Ok(n),
        _ => Err(CliError::InvalidInteger { flag: flag.to_owned(), value: val }),
    }
}

/// Equality of two string slices, stated over their character sequences.
fn str_eq(a: &str, b: &str) -> (r: bool)
    ensures
        r == (a@ == b@),
{
    let sa = a.to_owned();
    let sb = b.to_owned();
    sa == sb
}

/// The resolved run configuration, built once from the argument vector.
#[derive(Debug)]
pub struct Config {
    /// How many words the passphrase holds; positive.
    pub word_count: u32,
    /// Text placed between consecutive words; may be empty.
    pub word_sep: String,
    /// Path of the wordlist file.
    pub word_file: String,
    /// Whether the strength report was asked for.
    pub report: bool,
}

/// Specification-level image of `Config`.
pub ghost struct ConfigView {
    pub word_count: u32,
    pub word_sep: Seq<char>,
    pub word_file: Seq<char>,
    pub report: bool,
}

impl View for Config {
    type V = ConfigView;

    open spec fn view(&self) -> ConfigView {
        ConfigView {
            word_count: self.word_count,
            word_sep: self.word_sep@,
            word_file: self.word_file@,
            report: self.report,
        }
    }
}

/// The configuration before any flag is read: six words, a single space,
/// the caller-supplied wordlist path, no report.
pub open spec fn initial_config(default_file: Seq<char>) -> ConfigView {
    ConfigView { word_count: 6, word_sep: " "@, word_file: default_file, report: false }
}

/// How the flags from position `i` onward change `cfg`: each flag either
/// rewrites one field or ends parsing with an error or a help request.
pub open spec fn parse_args(args: Seq<Seq<char>>, i: int, cfg: ConfigView) -> Result<
    ConfigView,
    CliErrorView,
>
    decreases args.len() - i,
{
    if i < 0 || i >= args.len() {
        Ok(cfg)
    } else {
        let flag = args[i];
        if flag == "-w"@ || flag == "--word"@ {
            if i + 1 >= args.len() {
                Err(CliErrorView::MissingValue { flag })
            } else {
                match parse_u32_spec(args[i + 1]) {
                    Some(n) => if n > 0 {
                        parse_args(args, i + 2, ConfigView { word_count: n, ..cfg })
                    } else {
                        Err(CliErrorView::InvalidInteger { flag, value: args[i + 1] })
                    },
                    None => Err(CliErrorView::InvalidInteger { flag, value: args[i + 1] }),
                }
            }
        } else if flag == "-s"@ || flag == "--sep"@ {
            if i + 1 >= args.len() {
                Err(CliErrorView::MissingValue { flag })
            } else {
                parse_args(args, i + 2, ConfigView { word_sep: args[i + 1], ..cfg })
            }
        } else if flag == "-f"@ || flag == "--file"@ {
            if i + 1 >= args.len() {
                Err(CliErrorView::MissingValue { flag })
            } else {
                parse_args(args, i + 2, ConfigView { word_file: args[i + 1], ..cfg })
            }
        } else if flag == "-r"@ || flag == "--report"@ {
            parse_args(args, i + 1, ConfigView { report: true, ..cfg })
        } else if flag == "-h"@ || flag == "--help"@ {
            Err(CliErrorView::HelpRequested)
        } else {
            Err(CliErrorView::UnknownFlag { flag })
        }
    }
}

impl Config {
    /// Reads the argument vector (program name first) left to right and
    /// resolves the configuration, exactly as `parse_args` states: later
    /// flags override earlier ones, and the first faulty flag ends parsing.
    pub fn new(args: Vec<String>, default_file: String) -> (r: Result<Config, CliError>)
        ensures
            match r {
                Ok(c) => parse_args(args.deep_view(), 1, initial_config(default_file@)) == Ok::<
                    ConfigView,
                    CliErrorView,
                >(c@),
                Err(e) => parse_args(args.deep_view(), 1, initial_config(default_file@)) == Err::<
                    ConfigView,
                    CliErrorView,
                >(e@),
            },
    {
        let ghost gargs = args.deep_view();
        let ghost init = initial_config(default_file@);
        let mut config = Config {
            word_count: 6,
            word_sep: String::from_str(" "),
            word_file: default_file,
            report: false,
        };
        assert(config@ == init);
        let mut i: usize = 1;
        while i < args.len()
            invariant
                1 <= i,
                gargs == args.deep_view(),
                gargs.len() == args.len(),
                init == initial_config(default_file@),
                parse_args(gargs, 1, init) == parse_args(gargs, i as int, config@),
            decreases args.len() - i,
        {
            let ghost cfg0 = config@;
            let ghost i0 = i as int;
            let flag_owned = args[i].clone();
            let flag = flag_owned.as_str();
            assert(flag@ == gargs[i0]);
            let next: Option<&String> = if i + 1 < args.len() {
                Some(&args[i + 1])
            } else {
                None
            };
            proof {
                if next is Some {
                    assert(next->0@ == gargs[i0 + 1]);
                }
            }
            if str_eq(flag, "-w") || str_eq(flag, "--word") {
                let val = match verify_exists(flag, next) {
                    Ok(v) => v,
                    Err(e) => {
                        return Err(e);
                    },
                };
                match verify_integer(flag, val) {
                    Ok(n) => {
                        config.word_count = n;
                        i = i + 2;
                    },
                    Err(e) => {
                        return Err(e);
                    },
                }
            } else if str_eq(flag, "-s") || str_eq(flag, "--sep") {
                match verify_exists(flag, next) {
                    Ok(v) => {
                        config.word_sep = v;
                        i = i + 2;
                    },
                    Err(e) => {
                        return Err(e);
                    },
                }
            } else if str_eq(flag, "-f") || str_eq(flag, "--file") {
                match verify_exists(flag, next) {
                    Ok(v) => {
                        config.word_file = v;
                        i = i + 2;
                    },
                    Err(e) => {
                        return Err(e);
                    },
                }
            } else if str_eq(flag, "-r") || str_eq(flag, "--report") {
                config.report = true;
                i = i + 1;
            } else if str_eq(flag, "-h") || str_eq(flag, "--help") {
                return Err(CliError::HelpRequested);
            } else {
                return Err(CliError::UnknownFlag { flag: flag.to_owned() });
            }
        }
        Ok(config)
    }
}

} // verus!
