use openplay::cli::{parse, parse_ipv4, usage, Cli, CliError, Command};

fn parse_ok(args: &[&str]) -> Cli {
    parse(args.iter().map(|s| s.to_string()).collect()).unwrap_or_else(|_| panic!("parse failed"))
}

fn args(a: &[&str]) -> Vec<String> {
    a.iter().map(|s| s.to_string()).collect()
}

#[test]
fn parses_discover_with_iface() {
    let cli = parse_ok(&["--discover", "--iface", "192.168.50.5"]);
    assert!(matches!(cli.command, Command::Discover));
    assert_eq!(cli.bind, Some([192, 168, 50, 5]));
}

#[test]
fn parses_play_positionals() {
    let cli = parse_ok(&["Bedroom", "song.wav", "-v"]);
    assert!(cli.verbose);
    match cli.command {
        Command::Play { target, file } => {
            assert_eq!(target, "Bedroom");
            assert_eq!(file, "song.wav");
        }
        Command::Discover => panic!("expected play"),
    }
}

#[test]
fn rejects_bad_iface_and_stray_args() {
    assert!(matches!(parse(args(&["--iface", "nope"])), Err(CliError::Usage)));
    assert!(matches!(parse(args(&["--discover", "extra"])), Err(CliError::Usage)));
    assert!(matches!(parse(args(&["only-one-positional"])), Err(CliError::Usage)));
}

#[test]
fn help_is_distinct_from_usage_error() {
    assert!(matches!(parse(args(&["--help"])), Err(CliError::Help)));
}

#[test]
fn double_dash_allows_dash_prefixed_positionals() {
    let cli = parse_ok(&["--", "-Bedroom", "song.wav"]);
    match cli.command {
        Command::Play { target, .. } => assert_eq!(target, "-Bedroom"),
        Command::Discover => panic!("expected play"),
    }
}

#[test]
fn options_are_checked_in_order() {
    // A bad interface is reported before a later help flag is seen.
    assert_eq!(parse(args(&["-i", "1.2.3", "-h"])), Err(CliError::Usage));
    assert_eq!(parse(args(&["-h", "-i", "1.2.3"])), Err(CliError::Help));
    assert_eq!(parse(args(&["--iface"])), Err(CliError::Usage));
    assert_eq!(parse(args(&["-x", "a", "b"])), Err(CliError::Usage));
    assert_eq!(parse(args(&[])), Err(CliError::Usage));
    let cli = parse_ok(&["-i", "10.0.0.1", "--verbose", "a", "b", "-i", "10.0.0.2"]);
    assert_eq!(cli.bind, Some([10, 0, 0, 2]));
    assert!(cli.verbose);
}

#[test]
fn dotted_quads_follow_the_std_grammar() {
    assert_eq!(parse_ipv4("0.0.0.0"), Some([0, 0, 0, 0]));
    assert_eq!(parse_ipv4("255.255.255.255"), Some([255, 255, 255, 255]));
    assert_eq!(parse_ipv4("256.0.0.1"), None);
    assert_eq!(parse_ipv4("01.2.3.4"), None);
    assert_eq!(parse_ipv4("1.2.3"), None);
    assert_eq!(parse_ipv4("1.2.3.4.5"), None);
    assert_eq!(parse_ipv4("1.2..4"), None);
    assert_eq!(parse_ipv4(" 1.2.3.4"), None);
    assert_eq!(parse_ipv4("1.2.3.+4"), None);
    assert_eq!(parse_ipv4("192.168.1.10"), Some([192, 168, 1, 10]));
    for s in ["1.2.3.04", "1.2.3.4 ", "a.b.c.d", "1000.1.1.1", ""] {
        assert_eq!(parse_ipv4(s), None);
    }
}

#[test]
fn usage_mentions_every_option() {
    let u = usage();
    assert!(u.starts_with("openplay — AirPlay 2 audio sender\n"));
    assert!(u.contains("  openplay --discover [--iface <ip>]\n"));
    assert!(u.contains("-v, --verbose"));
    assert!(u.ends_with("or an IP address."));
}
