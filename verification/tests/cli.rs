use pass_gen::cli::{parse_u32, verify_exists, verify_integer, CliError, Config};

fn args_of(list: &[&str]) -> Vec<String> {
    list.iter().map(|s| s.to_string()).collect()
}

#[test]
fn config_defaults() {
    let cfg = Config::new(args_of(&["pass-gen"]), "/home/u/wordlist.txt".to_string()).unwrap();
    assert_eq!(cfg.word_count, 6);
    assert_eq!(cfg.word_sep, " ");
    assert_eq!(cfg.word_file, "/home/u/wordlist.txt");
    assert!(!cfg.report);
}

#[test]
fn config_all_flags() {
    let cfg = Config::new(
        args_of(&["pass-gen", "-w", "8", "-s", "-", "-f", "words.txt", "-r"]),
        "default.txt".to_string(),
    )
    .unwrap();
    assert_eq!(cfg.word_count, 8);
    assert_eq!(cfg.word_sep, "-");
    assert_eq!(cfg.word_file, "words.txt");
    assert!(cfg.report);
}

#[test]
fn config_long_flags() {
    let cfg = Config::new(
        args_of(&["pass-gen", "--word", "3", "--sep", "::", "--file", "w.txt", "--report"]),
        "default.txt".to_string(),
    )
    .unwrap();
    assert_eq!(cfg.word_count, 3);
    assert_eq!(cfg.word_sep, "::");
    assert_eq!(cfg.word_file, "w.txt");
    assert!(cfg.report);
}

#[test]
fn config_later_flag_wins() {
    let cfg = Config::new(args_of(&["pass-gen", "-w", "8", "-w", "3"]), "d".to_string()).unwrap();
    assert_eq!(cfg.word_count, 3);
}

#[test]
fn config_invalid_integer() {
    let err = Config::new(args_of(&["pass-gen", "-w", "abc"]), "d".to_string()).unwrap_err();
    match &err {
        CliError::InvalidInteger { flag, value } => {
            assert_eq!(flag, "-w");
            assert_eq!(value, "abc");
        }
        _ => panic!("expected the invalid-integer error"),
    }
    assert_eq!(err.message(), "invalid argument to -w, expected integer got 'abc'");
}

#[test]
fn config_zero_count_rejected() {
    let err = Config::new(args_of(&["pass-gen", "-w", "0"]), "d".to_string()).unwrap_err();
    assert!(matches!(err, CliError::InvalidInteger { .. }));
}

#[test]
fn config_missing_value() {
    let err = Config::new(args_of(&["pass-gen", "-s"]), "d".to_string()).unwrap_err();
    assert!(matches!(&err, CliError::MissingValue { flag } if flag == "-s"));
    assert_eq!(err.message(), "missing argument to -s");
}

#[test]
fn config_unknown_flag() {
    let err = Config::new(args_of(&["pass-gen", "-x"]), "d".to_string()).unwrap_err();
    assert!(matches!(&err, CliError::UnknownFlag { flag } if flag == "-x"));
    assert_eq!(err.message(), "invalid option -x");
}

#[test]
fn config_help_stops_parsing() {
    let err = Config::new(args_of(&["pass-gen", "-h", "-w", "abc"]), "d".to_string()).unwrap_err();
    assert!(matches!(err, CliError::HelpRequested));
    let err = Config::new(args_of(&["pass-gen", "--help"]), "d".to_string()).unwrap_err();
    assert!(matches!(err, CliError::HelpRequested));
}

#[test]
fn verify_exists_cases() {
    let owned = "value".to_string();
    assert_eq!(verify_exists("-s", Some(&owned)).unwrap(), "value");
    let err = verify_exists("-s", None).unwrap_err();
    assert!(matches!(&err, CliError::MissingValue { flag } if flag == "-s"));
}

#[test]
fn verify_integer_cases() {
    assert_eq!(verify_integer("-w", "5".to_string()).unwrap(), 5);
    assert_eq!(verify_integer("-w", "+7".to_string()).unwrap(), 7);
    assert_eq!(verify_integer("-w", "4294967295".to_string()).unwrap(), u32::MAX);
    assert!(verify_integer("-w", "0".to_string()).is_err());
    assert!(verify_integer("-w", "4294967296".to_string()).is_err());
    assert!(verify_integer("-w", "abc".to_string()).is_err());
    assert!(verify_integer("-w", "".to_string()).is_err());
    assert!(verify_integer("-w", "-3".to_string()).is_err());
    assert!(verify_integer("-w", "1 2".to_string()).is_err());
}

#[test]
fn parse_u32_leading_zeros() {
    assert_eq!(parse_u32("007"), Some(7));
    assert_eq!(parse_u32("+"), None);
    assert_eq!(parse_u32("++5"), None);
}
