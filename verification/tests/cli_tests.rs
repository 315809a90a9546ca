use lab1::cli::{parse_args, parse_u32, parse_unsigned_text, parse_usize, same_text, Args, Command};

fn argv(items: &[&str]) -> Vec<String> {
    items.iter().map(|s| s.to_string()).collect()
}

fn float_flags(args: &[String]) -> Vec<bool> {
    args.iter().map(|s| s.parse::<f32>().is_ok()).collect()
}

fn parse(items: &[&str]) -> Result<Command, String> {
    let args = argv(items);
    let ok = float_flags(&args);
    parse_args(&args, &ok)
}

fn run(items: &[&str]) -> Args {
    match parse(items) {
        Ok(Command::Run(a)) => a,
        Ok(Command::Help) => panic!("unexpected help"),
        Err(e) => panic!("unexpected error: {e}"),
    }
}

fn error(items: &[&str]) -> String {
    match parse(items) {
        Err(e) => e,
        Ok(_) => panic!("expected an error"),
    }
}

#[test]
fn defaults_without_arguments() {
    let a = run(&[]);
    assert_eq!((a.l, a.m, a.n, a.seed), (16, 16, 16, 42));
    assert_eq!(a.tol, None);
    assert!(!a.skip_sse2);
}

#[test]
fn every_flag_is_read() {
    let a = run(&["--l", "48", "--m", "8", "--n", "2", "--seed", "7", "--tol", "0.5", "--skip-sse2"]);
    assert_eq!((a.l, a.m, a.n, a.seed), (48, 8, 2, 7));
    assert_eq!(a.tol.as_deref(), Some("0.5"));
    assert!(a.skip_sse2);
}

#[test]
fn last_value_of_a_repeated_flag_wins() {
    let a = run(&["--l", "3", "--l", "9", "--tol", "1", "--tol", "2e-3"]);
    assert_eq!(a.l, 9);
    assert_eq!(a.tol.as_deref(), Some("2e-3"));
}

#[test]
fn plus_sign_is_accepted() {
    let a = run(&["--n", "+5", "--seed", "+0"]);
    assert_eq!(a.n, 5);
    assert_eq!(a.seed, 0);
}

#[test]
fn help_flags() {
    assert!(matches!(parse(&["-h"]), Ok(Command::Help)));
    assert!(matches!(parse(&["--l", "4", "--help", "--bogus"]), Ok(Command::Help)));
}

#[test]
fn earlier_error_comes_before_help() {
    assert_eq!(error(&["--bogus", "-h"]), "unknown argument: --bogus");
}

#[test]
fn unknown_argument() {
    assert_eq!(error(&["48"]), "unknown argument: 48");
    assert_eq!(error(&["--L", "4"]), "unknown argument: --L");
}

#[test]
fn missing_values() {
    assert_eq!(error(&["--l"]), "missing value after --l");
    assert_eq!(error(&["--seed"]), "missing value after --seed");
    assert_eq!(error(&["--tol"]), "missing value after --tol");
}

#[test]
fn invalid_values() {
    assert_eq!(error(&["--m", "x"]), "invalid usize for --m: x");
    assert_eq!(error(&["--m", "-1"]), "invalid usize for --m: -1");
    assert_eq!(error(&["--n", ""]), "invalid usize for --n: ");
    assert_eq!(error(&["--n", "+"]), "invalid usize for --n: +");
    assert_eq!(error(&["--seed", "4294967296"]), "invalid u32 for --seed: 4294967296");
    assert_eq!(error(&["--l", "18446744073709551616"]), "invalid usize for --l: 18446744073709551616");
    assert_eq!(error(&["--tol", "abc"]), "invalid f32 for --tol: abc");
}

#[test]
fn flag_is_taken_as_the_value_of_the_flag_before_it() {
    assert_eq!(error(&["--l", "--m", "3"]), "invalid usize for --l: --m");
}

#[test]
fn zero_sizes_are_refused() {
    assert_eq!(error(&["--l", "0"]), "L, M, N must be > 0");
    assert_eq!(error(&["--n", "0", "--seed", "1"]), "L, M, N must be > 0");
}

#[test]
fn largest_values() {
    let a = run(&["--seed", "4294967295", "--l", "18446744073709551615"]);
    assert_eq!(a.seed, u32::MAX);
    assert_eq!(a.l, usize::MAX);
}

#[test]
fn parse_usize_moves_past_its_value() {
    let args = argv(&["12", "x"]);
    let mut pos = 0;
    assert_eq!(parse_usize(&args, &mut pos, "--l"), Ok(12));
    assert_eq!(pos, 1);
    assert_eq!(parse_usize(&args, &mut pos, "--l"), Err("invalid usize for --l: x".to_string()));
    assert_eq!(pos, 2);
    assert_eq!(parse_usize(&args, &mut pos, "--l"), Err("missing value after --l".to_string()));
    assert_eq!(pos, 2);
}

#[test]
fn parse_u32_reads_values() {
    let args = argv(&["0042", "4294967296"]);
    let mut pos = 0;
    assert_eq!(parse_u32(&args, &mut pos, "--seed"), Ok(42));
    assert_eq!(parse_u32(&args, &mut pos, "--seed"), Err("invalid u32 for --seed: 4294967296".to_string()));
}

#[test]
fn unsigned_text_agrees_with_std() {
    for s in ["0", "7", "+7", "007", "++7", "-0", " 7", "7 ", "1_000", "255", "256", "", "+", "99999999999"] {
        assert_eq!(parse_unsigned_text(s, 255), s.parse::<u8>().ok().map(u64::from), "text {s:?}");
        assert_eq!(parse_unsigned_text(s, u32::MAX as u64), s.parse::<u32>().ok().map(u64::from), "text {s:?}");
    }
}

#[test]
fn same_text_compares_characters() {
    assert!(same_text("--l", "--l"));
    assert!(!same_text("--l", "--m"));
    assert!(!same_text("--l", "--l "));
    assert!(same_text("", ""));
    assert!(!same_text("é", "e"));
}
