use ruststruct::cli::CliError;
use ruststruct::{Cli, FileMap, UserConfig};

fn args(list: &[&str]) -> Vec<String> {
    list.iter().map(|a| a.to_string()).collect()
}

fn parse(list: &[&str]) -> Cli {
    Cli::try_parse_from(&args(list)).unwrap()
}

#[test]
fn command_definition_is_valid() {
    // Every documented option is understood.
    assert!(matches!(Cli::try_parse_from(&args(&["ruststruct", "--help"])), Err(CliError::DisplayHelp)));
    assert!(matches!(Cli::try_parse_from(&args(&["ruststruct", "-h"])), Err(CliError::DisplayHelp)));
    assert!(matches!(Cli::try_parse_from(&args(&["ruststruct", "--version"])), Err(CliError::DisplayVersion)));
    assert!(matches!(Cli::try_parse_from(&args(&["ruststruct", "-V"])), Err(CliError::DisplayVersion)));
    let cli = parse(&["ruststruct", "-n", "x", "--git", "--dry-run", "dir"]);
    assert_eq!(cli.name.as_deref(), Some("x"));
}

#[test]
fn parses_the_minimal_invocation() {
    let cli = parse(&["ruststruct", "myapp"]);
    assert_eq!(cli.project_dir, "myapp");
    assert!(cli.name.is_none());
    assert!(!cli.git);
    assert!(!cli.dry_run);
}

#[test]
fn parses_every_flag() {
    let cli = parse(&["ruststruct", "--name", "acme", "--git", "--dry-run", "app"]);
    assert_eq!(cli.name.as_deref(), Some("acme"));
    assert!(cli.git);
    assert!(cli.dry_run);
    assert_eq!(cli.project_dir, "app");
}

#[test]
fn missing_project_dir_is_an_error() {
    assert!(Cli::try_parse_from(&args(&["ruststruct"])).is_err());
}

#[test]
fn config_is_layered_onto_the_defaults() {
    let config = UserConfig {
        dirs: vec!["scripts".to_string()],
        files: FileMap::from_pairs(vec![("Makefile".to_string(), "all:\n".into())]),
    };
    let opts = parse(&["ruststruct", "--git", "app"]).into_options(config);

    assert!(opts.git);
    assert!(opts.dirs.contains(&"src".to_string()));
    assert!(opts.dirs.contains(&"scripts".to_string()));
    assert!(opts.files.contains_key("Makefile"));
}

#[test]
fn name_value_forms_are_accepted() {
    for form in [
        vec!["ruststruct", "--name", "acme", "app"],
        vec!["ruststruct", "--name=acme", "app"],
        vec!["ruststruct", "-n", "acme", "app"],
        vec!["ruststruct", "-nacme", "app"],
        vec!["ruststruct", "-n=acme", "app"],
    ] {
        let cli = parse(&form);
        assert_eq!(cli.name.as_deref(), Some("acme"), "{form:?}");
        assert_eq!(cli.project_dir, "app");
    }
}

#[test]
fn mistakes_are_reported_by_kind() {
    let err = |list: &[&str]| Cli::try_parse_from(&args(list)).err().unwrap();
    assert!(matches!(err(&["ruststruct", "--name"]), CliError::MissingValue(f) if f == "--name"));
    assert!(matches!(err(&["ruststruct", "--name", "--git", "app"]), CliError::MissingValue(_)));
    assert!(matches!(err(&["ruststruct", "--frobnicate", "app"]), CliError::UnknownArgument(a) if a == "--frobnicate"));
    assert!(matches!(err(&["ruststruct", "-x", "app"]), CliError::UnknownArgument(_)));
    assert!(matches!(err(&["ruststruct", "a", "b"]), CliError::UnexpectedArgument(a) if a == "b"));
    assert!(matches!(err(&["ruststruct", "--git", "--git", "a"]), CliError::RepeatedArgument(f) if f == "--git"));
    assert!(matches!(err(&["ruststruct", "-n", "x", "--name", "y", "a"]), CliError::RepeatedArgument(_)));
    assert!(matches!(err(&["ruststruct", "--git=yes", "a"]), CliError::UnexpectedValue(f) if f == "--git"));
    assert!(matches!(err(&["ruststruct", "--dry-run"]), CliError::MissingProjectDir));
    assert!(matches!(err(&["ruststruct", "app", "--help"]), CliError::DisplayHelp));
    assert!(matches!(err(&["ruststruct", ""]), CliError::EmptyValue(v) if v == "<PROJECT_DIR>"));
    assert!(matches!(err(&["ruststruct", "--", ""]), CliError::EmptyValue(_)));
    assert!(matches!(err(&["ruststruct", "a", ""]), CliError::UnexpectedArgument(_)));
}

#[test]
fn double_dash_makes_the_rest_positional() {
    let cli = parse(&["ruststruct", "--", "--git"]);
    assert_eq!(cli.project_dir, "--git");
    assert!(!cli.git);
    let cli = parse(&["ruststruct", "-"]);
    assert_eq!(cli.project_dir, "-");
    let cli = parse(&["ruststruct", "--name", "-", "app"]);
    assert_eq!(cli.name.as_deref(), Some("-"));
}

#[test]
fn options_keep_the_cli_choices() {
    let opts = parse(&["ruststruct", "--name", "tool", "--dry-run", "some/dir"])
        .into_options(UserConfig::default());
    assert_eq!(opts.root, "some/dir");
    assert_eq!(opts.name.as_deref(), Some("tool"));
    assert!(opts.dry_run);
    assert!(!opts.git);
    assert_eq!(opts.dirs, ["src", "tests", "benches", "examples"]);
    assert!(opts.files.is_empty());
}
