use minlz::mz::args::{parse, Arg, Cli, ParseError, Subcommand};
use minlz::mz::size::parse_size;
use minlz::Level;

fn parse_argv(args: &[&str]) -> Result<Cli, ParseError> {
    let args: Vec<Arg> = args.iter().map(|s| Arg::new(s)).collect();
    parse(&args)
}

#[test]
fn compress_subcommand() {
    let cli = parse_argv(&["c", "file.txt"]).unwrap();
    assert_eq!(cli.subcommand, Subcommand::Compress);
    assert_eq!(cli.input.as_deref(), Some("file.txt"));
}

#[test]
fn infer_decompress_from_extension() {
    let cli = parse_argv(&["file.mz"]).unwrap();
    assert_eq!(cli.subcommand, Subcommand::Decompress);
}

#[test]
fn level_flags() {
    let cli = parse_argv(&["-1", "x"]).unwrap();
    assert_eq!(cli.options.level, Some(Level::Fastest));
    let cli = parse_argv(&["-3", "x"]).unwrap();
    assert_eq!(cli.options.level, Some(Level::Smallest));
    let cli = parse_argv(&["--level", "2", "x"]).unwrap();
    assert_eq!(cli.options.level, Some(Level::Balanced));
}

#[test]
fn level_zero_uncompressed() {
    let cli = parse_argv(&["-0", "x"]).unwrap();
    assert!(cli.options.uncompressed);
}

#[test]
fn output_flag_short() {
    let cli = parse_argv(&["-o", "out.mz", "in.txt"]).unwrap();
    assert_eq!(
        cli.options.output.as_deref(),
        Some("out.mz")
    );
}

#[test]
fn output_flag_long() {
    let cli = parse_argv(&["--output=foo.mz", "in.txt"]).unwrap();
    assert_eq!(
        cli.options.output.as_deref(),
        Some("foo.mz")
    );
}

#[test]
fn block_flag() {
    let cli = parse_argv(&["--block", "in.txt"]).unwrap();
    assert!(cli.options.block);
}

#[test]
fn stdin_sentinel() {
    let cli = parse_argv(&["c", "-"]).unwrap();
    assert_eq!(cli.input.as_deref(), Some("-"));
}

#[test]
fn parse_size_units() {
    assert_eq!(parse_size("").unwrap(), 0);
    assert_eq!(parse_size("1024").unwrap(), 1024);
    assert_eq!(parse_size("1K").unwrap(), 1 << 10);
    assert_eq!(parse_size("4MiB").unwrap(), 4 << 20);
    assert_eq!(parse_size("2GB").unwrap(), 2 << 30);
    assert!(parse_size("abc").is_err());
    assert!(parse_size("4XX").is_err());
}

#[test]
fn conflicting_levels_error() {
    let err = parse_argv(&["-0", "--level", "2", "x"]).unwrap_err();
    assert!(matches!(err, ParseError::ConflictingLevels));
}

#[test]
fn no_subcommand_no_input_errors() {
    let err = parse_argv(&[]).unwrap_err();
    assert!(matches!(err, ParseError::NoSubcommand));
}

#[test]
fn block_size_pad() {
    let cli = parse_argv(&["--block-size", "64K", "--pad", "4096", "in.txt"]).unwrap();
    assert_eq!(cli.options.block_size, Some(64 << 10));
    assert_eq!(cli.options.padding, Some(4096));
}

#[test]
fn cat_subcommand_forces_stdout() {
    let cli = parse_argv(&["cat", "file.mz"]).unwrap();
    assert_eq!(cli.subcommand, Subcommand::Decompress);
    assert!(cli.options.stdout);
    assert!(cli.options.tail.is_none());
}

#[test]
fn tail_subcommand_sets_defaults() {
    let cli = parse_argv(&["tail", "file.mz"]).unwrap();
    assert_eq!(cli.subcommand, Subcommand::Decompress);
    assert!(cli.options.stdout);
    assert_eq!(cli.options.tail, Some(1024));
    assert!(cli.options.tail_next_nl);
}

#[test]
fn tail_subcommand_explicit_size_overrides_default() {
    let cli = parse_argv(&["tail", "--tail=64K", "file.mz"]).unwrap();
    assert_eq!(cli.options.tail, Some(64 << 10));
    assert!(!cli.options.tail_next_nl);
}

#[test]
fn tail_nl_suffix_parsed() {
    let cli = parse_argv(&["d", "--tail=4K+nl", "file.mz"]).unwrap();
    assert_eq!(cli.options.tail, Some(4 << 10));
    assert!(cli.options.tail_next_nl);
}

#[test]
fn offset_nl_suffix_parsed() {
    let cli = parse_argv(&["d", "--offset=512+nl", "file.mz"]).unwrap();
    assert_eq!(cli.options.offset, Some(512));
    assert!(cli.options.tail_next_nl);
}

#[test]
fn follow_flag_parses() {
    let cli = parse_argv(&["d", "--follow", "file.mz"]).unwrap();
    assert!(cli.options.follow);
}

#[test]
fn follow_with_tail_errors() {
    let err = parse_argv(&["d", "--follow", "--tail=1K", "file.mz"]).unwrap_err();
    assert!(matches!(err, ParseError::InvalidValue(ref s, _) if s == "--follow"));
}

#[test]
fn follow_with_stdin_errors() {
    let err = parse_argv(&["d", "--follow", "-"]).unwrap_err();
    assert!(matches!(err, ParseError::InvalidValue(ref s, _) if s == "--follow"));
}

#[test]
fn follow_with_bench_errors() {
    let err = parse_argv(&["d", "--follow", "--bench=2", "file.mz"]).unwrap_err();
    assert!(matches!(err, ParseError::InvalidValue(ref s, _) if s == "--follow"));
}

#[test]
fn go_style_single_dash_follow() {
    let cli = parse_argv(&["d", "-follow", "file.mz"]).unwrap();
    assert!(cli.options.follow);
}
