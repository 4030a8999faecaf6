use envfind::cli::{parse_command, parse_from, CommandLine};

fn args(list: &[&str]) -> Vec<String> {
    list.iter().map(|s| s.to_string()).collect()
}

#[test]
fn accepts_exactly_one_query() {
    assert_eq!(parse_from(args(&["envfind", "sklearn"])).unwrap().query, "sklearn");
}

#[test]
fn rejects_missing_query() {
    assert!(parse_from(args(&["envfind"])).is_err());
}

#[test]
fn rejects_extra_positionals() {
    assert!(parse_from(args(&["envfind", "numpy", "extra"])).is_err());
}

#[test]
fn cli_accepts_exactly_one_query() {
    assert_eq!(parse_from(args(&["envfind", "sklearn"])).unwrap().query, "sklearn");
}

#[test]
fn cli_rejects_missing_query() {
    assert!(parse_from(args(&["envfind"])).is_err());
}

#[test]
fn cli_rejects_extra_positionals() {
    assert!(parse_from(args(&["envfind", "numpy", "extra"])).is_err());
}

#[test]
fn rejects_option_like_and_empty_queries() {
    assert_eq!(
        parse_from(args(&["envfind", "-x"])),
        Err("expected exactly one query".to_string())
    );
    assert!(parse_from(args(&["envfind", ""])).is_err());
}

#[test]
fn help_and_version_are_recognised() {
    assert_eq!(parse_command(args(&["envfind", "--help"])), Ok(CommandLine::Help));
    assert_eq!(parse_command(args(&["envfind", "-h"])), Ok(CommandLine::Help));
    assert_eq!(parse_command(args(&["envfind", "--version"])), Ok(CommandLine::Version));
    match parse_command(args(&["envfind", "numpy"])) {
        Ok(CommandLine::Run(cli)) => assert_eq!(cli.query, "numpy"),
        other => panic!("unexpected {:?}", other),
    }
    assert!(parse_command(args(&["envfind", "--help", "x"])).is_err());
}
