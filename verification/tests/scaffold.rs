use ruststruct::path::is_safe_relative;
use ruststruct::scaffold::{next_step, Plan, RollbackGuard, Step, command_line, command_outcome, dry_run_report, plan, template_files};
use ruststruct::{DEFAULT_DIRS, Error, FileMap, ScaffoldOptions, UserConfig};

fn run(opts: &ScaffoldOptions) -> Result<Plan, Error> {
    plan(opts, false)
}

fn has_dir(p: &Plan, dir: &str) -> bool {
    p.dirs.iter().any(|d| d == dir)
}

fn config(dirs: &[&str], files: &[(&str, &str)]) -> UserConfig {
    UserConfig {
        dirs: dirs.iter().map(|d| d.to_string()).collect(),
        files: FileMap::from_pairs(files.iter().map(|(k, v)| (k.to_string(), v.to_string())).collect()),
    }
}

#[test]
fn safe_relative_accepts_plain_paths_only() {
    assert!(is_safe_relative("src/main.rs"));
    assert!(is_safe_relative("a/b/c"));

    assert!(!is_safe_relative(""));
    assert!(!is_safe_relative("./src"));
    assert!(!is_safe_relative("../src"));
    assert!(!is_safe_relative("/abs"));
}

#[test]
fn package_name_falls_back_to_the_directory_name() {
    assert_eq!(ScaffoldOptions::new("/tmp/some/myapp").package_name().unwrap(), "myapp");

    let err = ScaffoldOptions::new("..").package_name().unwrap_err();
    assert!(matches!(err, Error::UnnamedRoot(_)), "got {err:?}");
}

#[test]
fn otherwise_empty_directories_get_a_gitkeep() {
    let p = run(&ScaffoldOptions::new("keepapp")).unwrap();

    // `benches/` is the one default directory with no template file in it.
    assert!(p.files.contains_key("benches/.gitkeep"));

    // Directories that already hold something must not get one.
    for dir in ["src", "tests", "examples"] {
        assert!(
            !p.files.contains_key(&format!("{dir}/.gitkeep")),
            "{dir}/ has content and should not be padded"
        );
    }
}

#[test]
fn gitkeep_matches_whole_path_components() {
    let opts = ScaffoldOptions::new("componentapp").with_config(config(&["srcgen"], &[]));
    let p = run(&opts).unwrap();

    assert!(p.files.contains_key("srcgen/.gitkeep"));
    assert!(!p.files.contains_key("src/.gitkeep"));
}

#[test]
fn dry_run_writes_a_plan_and_nothing_else() {
    let mut opts = ScaffoldOptions::new("/tmp/work/dryapp");
    opts.dry_run = true;
    opts.git = true;
    let p = run(&opts).unwrap();
    let text = dry_run_report(&opts, &p);

    assert!(text.contains("package name : dryapp"), "{text}");
    assert!(text.contains("cargo init --name dryapp"), "{text}");
    assert!(text.contains("git init"), "{text}");
}

#[test]
fn dry_run_output_is_deterministic() {
    let mut opts = ScaffoldOptions::new("/tmp/work/stable");
    opts.dry_run = true;

    let first = dry_run_report(&opts, &run(&opts).unwrap());
    for _ in 0..10 {
        assert_eq!(dry_run_report(&opts, &run(&opts).unwrap()), first, "plan ordering is not stable");
    }
}

#[test]
fn config_adds_directories_and_files() {
    let opts = ScaffoldOptions::new("cfgapp")
        .with_config(config(&["scripts"], &[("rustfmt.toml", "edition = \"2024\"\n")]));
    let p = run(&opts).unwrap();

    assert!(has_dir(&p, "scripts"));
    assert!(p.files.contains_key("rustfmt.toml"));
}

#[test]
fn config_can_override_a_template_file() {
    let opts = ScaffoldOptions::new("overrideapp").with_config(config(&[], &[(".gitignore", "custom\n")]));
    let p = run(&opts).unwrap();

    assert_eq!(p.files.get(".gitignore").unwrap(), "custom\n");
}

#[test]
fn nested_config_paths_create_their_parents() {
    let opts = ScaffoldOptions::new("nested")
        .with_config(config(&[], &[(".github/workflows/ci.yml", "name: ci\n")]));
    let p = run(&opts).unwrap();

    assert!(has_dir(&p, ".github/workflows"));
    assert!(p.files.contains_key(".github/workflows/ci.yml"));
}

#[test]
fn rejects_config_paths_escaping_the_root() {
    for hostile in ["../escape.txt", "/etc/passwd", "a/../../b.txt"] {
        let opts = ScaffoldOptions::new("guarded").with_config(config(&[], &[(hostile, "pwned")]));
        let err = run(&opts).err().unwrap();
        assert!(matches!(err, Error::UnsafePath(_)), "{hostile}: {err:?}");
    }
}

#[test]
fn rejects_hostile_directories_too() {
    let opts = ScaffoldOptions::new("guarded-dirs").with_config(config(&["../oops"], &[]));
    let err = run(&opts).err().unwrap();
    assert!(matches!(err, Error::UnsafePath(_)), "got {err:?}");
}

#[test]
fn existing_directory_is_refused() {
    let err = plan(&ScaffoldOptions::new("/tmp"), true).err().unwrap();
    assert!(matches!(err, Error::RootExists(ref r) if r == "/tmp"), "got {err:?}");
}

#[test]
fn default_layout_is_planned_in_path_order() {
    let p = run(&ScaffoldOptions::new("myapp")).unwrap();
    assert_eq!(p.name, "myapp");
    assert_eq!(p.dirs, ["benches", "examples", "src", "tests"]);
    let keys: Vec<&str> = p.files.entries().iter().map(|(k, _)| k.as_str()).collect();
    assert_eq!(
        keys,
        [".gitignore", "benches/.gitkeep", "examples/hello.rs", "src/lib.rs", "src/main.rs", "tests/integration.rs"]
    );
    assert!(p.files.get("src/main.rs").unwrap().contains("myapp::greet(\"myapp\")"));
    assert_eq!(p.files.get("benches/.gitkeep").unwrap(), "");
    for dir in DEFAULT_DIRS {
        assert!(has_dir(&p, dir));
    }
}

#[test]
fn hyphenated_names_become_underscored_crate_paths() {
    let p = run(&ScaffoldOptions::new("/tmp/work/my-cool-app")).unwrap();

    let main_rs = p.files.get("src/main.rs").unwrap();
    assert!(main_rs.contains("my_cool_app::greet"), "{main_rs}");
    // `cargo init --name` is what puts the name into Cargo.toml.
    assert!(p.init_args().contains(&"my-cool-app".to_string()));
}

#[test]
fn templates_are_rendered_with_both_names() {
    let files = template_files("my-cool-app");
    let main_rs = files.get("src/main.rs").unwrap();
    assert_eq!(main_rs, "fn main() {\n    println!(\"{}\", my_cool_app::greet(\"my-cool-app\"));\n}\n");
    let lib_rs = files.get("src/lib.rs").unwrap();
    assert!(lib_rs.starts_with("//! Library crate for `my-cool-app`."), "{lib_rs}");
    assert_eq!(files.get(".gitignore").unwrap(), "/target\n**/*.rs.bk\n");
    assert_eq!(files.len(), 5);
}

#[test]
fn custom_name_overrides_the_directory_name() {
    let mut opts = ScaffoldOptions::new("myapp");
    opts.name = Some("acme-tool".to_string());
    let p = run(&opts).unwrap();
    assert_eq!(p.name, "acme-tool");
    let args = p.init_args();
    assert_eq!(args, ["init", "--name", "acme-tool", "--vcs", "none"]);
    assert!(p.files.get("tests/integration.rs").unwrap().contains("acme_tool::greet"));
}

#[test]
fn unnamed_root_is_reported_before_paths() {
    let opts = ScaffoldOptions::new("/").with_config(config(&["../x"], &[]));
    assert!(matches!(run(&opts), Err(Error::UnnamedRoot(ref r)) if r == "/"));
}

#[test]
fn first_unsafe_directory_is_reported() {
    let opts = ScaffoldOptions::new("app").with_config(config(&["../b", "../a"], &[]));
    assert!(matches!(run(&opts), Err(Error::UnsafePath(ref p)) if p == "../a"));
    // The parent `/etc` of a file is a directory, and rooted paths order first.
    let opts = ScaffoldOptions::new("app").with_config(config(&["../b", "../a"], &[("/etc/x", "")]));
    assert!(matches!(run(&opts), Err(Error::UnsafePath(ref p)) if p == "/etc"));
    let opts = ScaffoldOptions::new("app").with_config(config(&[], &[("./x", ""), ("z/../y", "")]));
    // `./x` has the parent `.`, a directory, which is checked before files.
    assert!(matches!(run(&opts), Err(Error::UnsafePath(ref p)) if p == "."));
}

#[test]
fn equal_directories_are_planned_once() {
    let opts = ScaffoldOptions::new("app").with_config(config(&["scripts/", "scripts", "./"], &[]));
    let err = run(&opts).err().unwrap();
    assert!(matches!(err, Error::UnsafePath(ref p) if p == "./"), "{err:?}");
    // Of equal configured directories the last spelling stays.
    let opts = ScaffoldOptions::new("app").with_config(config(&["scripts/", "scripts", "src/./"], &[]));
    let p = run(&opts).unwrap();
    assert_eq!(p.dirs, ["benches", "examples", "scripts", "src/./", "tests"]);
    assert!(p.files.contains_key("scripts/.gitkeep"));
}

#[test]
fn implied_parents_do_not_replace_configured_directories() {
    let opts = ScaffoldOptions::new("app").with_config(config(&["src/"], &[]));
    let p = run(&opts).unwrap();
    assert_eq!(p.dirs, ["benches", "examples", "src/", "tests"]);
}

#[test]
fn configured_directory_order_does_not_matter() {
    let a = ScaffoldOptions::new("app").with_config(config(&["b", "a", "b"], &[]));
    let b = ScaffoldOptions::new("app").with_config(config(&["a", "b"], &[]));
    assert_eq!(dry_run_report(&a, &run(&a).unwrap()), dry_run_report(&b, &run(&b).unwrap()));
}

#[test]
fn dry_run_text_is_exact() {
    let mut opts = ScaffoldOptions::new("root/").with_config(config(&["scripts"], &[]));
    opts.git = false;
    let p = run(&opts).unwrap();
    assert_eq!(
        dry_run_report(&opts, &p),
        "[dry-run] project root : root/\n\
         [dry-run] package name : root\n\
         [dry-run] directories  :\n  root/benches/\n  root/examples/\n  root/scripts/\n  root/src/\n  root/tests/\n\
         [dry-run] files        :\n  root/.gitignore\n  root/benches/.gitkeep\n  root/examples/hello.rs\n  root/scripts/.gitkeep\n  root/src/lib.rs\n  root/src/main.rs\n  root/tests/integration.rs\n\
         [dry-run] would run    : cargo init --name root --vcs none\n"
    );
}

#[test]
fn command_failure_keeps_trimmed_output() {
    assert!(command_outcome("x".into(), true, "0".into(), "a".into(), "b".into()).is_ok());
    let err = command_outcome(
        "cargo init".into(),
        false,
        "exit status: 101".into(),
        "  out\n".into(),
        "err \t\n".into(),
    )
    .unwrap_err();
    match err {
        Error::CommandFailed { command, status, output } => {
            assert_eq!(command, "cargo init");
            assert_eq!(status, "exit status: 101");
            assert_eq!(output, "out\nerr");
        }
        other => panic!("got {other:?}"),
    }
    let line = command_line("cargo", &vec!["init".to_string(), "--name".to_string(), "x".to_string()]);
    assert_eq!(line, "cargo init --name x");
    assert_eq!(command_line("git", &vec![]), "git ");
}

#[test]
fn rollback_is_pending_until_disarmed() {
    let mut guard = RollbackGuard::arm("/tmp/proj");
    assert_eq!(guard.pending_removal().map(|s| s.as_str()), Some("/tmp/proj"));
    guard.disarm();
    assert!(guard.pending_removal().is_none());
}

#[test]
fn run_steps_follow_the_plan_and_clean_up_on_failure() {
    let p = run(&ScaffoldOptions::new("stepapp")).unwrap();
    let none: Vec<String> = Vec::new();
    let mut names = Vec::new();
    let mut done = 0;
    loop {
        match next_step(&p, &none, true, done, true) {
            Step::CreateRoot => names.push("root".to_string()),
            Step::CreateDir(d) => names.push(format!("dir {d}")),
            Step::WriteFile(f, _) => names.push(format!("file {f}")),
            Step::Run(prog, args) => names.push(format!("{prog} {}", args.join(" "))),
            Step::Finished => break,
            _ => panic!("unexpected step after {done} successes"),
        }
        done += 1;
    }
    assert_eq!(names.first().unwrap(), "root");
    assert_eq!(names[1], "dir benches");
    assert!(names.contains(&"file benches/.gitkeep".to_string()));
    assert_eq!(names[names.len() - 2], "cargo init --name stepapp --vcs none");
    assert_eq!(names[names.len() - 1], "git init");
    assert!(matches!(next_step(&p, &none, false, 12, true), Step::Finished));
    assert!(matches!(next_step(&p, &none, true, 0, false), Step::Stop));
    match next_step(&p, &none, true, 3, false) {
        Step::Undo { root, parents } => {
            assert!(root);
            assert!(parents.is_empty());
        }
        _ => panic!("a failure after the root exists undoes the run"),
    }
}

#[test]
fn missing_parents_are_created_first_and_removed_last() {
    let p = run(&ScaffoldOptions::new("/tmp/a/b/app")).unwrap();
    let missing = vec!["/tmp/a".to_string(), "/tmp/a/b".to_string()];
    assert!(matches!(next_step(&p, &missing, false, 0, true), Step::CreateParent(ref d) if d == "/tmp/a"));
    assert!(matches!(next_step(&p, &missing, false, 1, true), Step::CreateParent(ref d) if d == "/tmp/a/b"));
    assert!(matches!(next_step(&p, &missing, false, 2, true), Step::CreateRoot));
    assert!(matches!(next_step(&p, &missing, false, 3, true), Step::CreateDir(ref d) if d == "benches"));
    // The first step failed: nothing was created.
    assert!(matches!(next_step(&p, &missing, false, 0, false), Step::Stop));
    // `/tmp/a` exists, creating `/tmp/a/b` failed.
    match next_step(&p, &missing, false, 1, false) {
        Step::Undo { root, parents } => {
            assert!(!root);
            assert_eq!(parents, vec!["/tmp/a".to_string()]);
        }
        _ => panic!("expected an undo"),
    }
    // Creating the root failed.
    match next_step(&p, &missing, false, 2, false) {
        Step::Undo { root, parents } => {
            assert!(!root);
            assert_eq!(parents, vec!["/tmp/a/b".to_string(), "/tmp/a".to_string()]);
        }
        _ => panic!("expected an undo"),
    }
    // A later step failed: the root goes first, then the parents, innermost first.
    match next_step(&p, &missing, false, 5, false) {
        Step::Undo { root, parents } => {
            assert!(root);
            assert_eq!(parents, vec!["/tmp/a/b".to_string(), "/tmp/a".to_string()]);
        }
        _ => panic!("expected an undo"),
    }
}

#[test]
fn error_messages_name_the_cause() {
    let io = || std::io::Error::new(std::io::ErrorKind::Other, "boom");
    assert_eq!(Error::RootExists("demo".to_string()).message(), "directory `demo` already exists");
    assert_eq!(
        Error::UnnamedRoot("/".to_string()).message(),
        "cannot derive a package name from `/`; pass --name"
    );
    assert_eq!(
        Error::UnsafePath("../x".to_string()).message(),
        "path `../x` is not a plain relative path inside the project"
    );
    assert_eq!(
        Error::CreateDir { path: "demo/src".to_string(), source: io() }.message(),
        "creating directory `demo/src`"
    );
    assert_eq!(
        Error::WriteFile { path: "demo/a".to_string(), source: io() }.message(),
        "writing file `demo/a`"
    );
    assert_eq!(
        Error::ReadConfig { path: "c.json".to_string(), source: io() }.message(),
        "reading config `c.json`"
    );
    assert_eq!(
        Error::CommandSpawn { command: "cargo init".to_string(), source: io() }.message(),
        "running `cargo init` (is it installed and on your PATH?)"
    );
    assert_eq!(
        Error::CommandFailed {
            command: "git init".to_string(),
            status: "exit status: 1".to_string(),
            output: "nope".to_string(),
        }
        .message(),
        "`git init` failed (exit status: 1)\nnope"
    );
    let bad = serde_json::from_str::<serde_json::Value>("{").unwrap_err();
    assert_eq!(
        Error::ParseConfig { path: "c.json".to_string(), source: bad }.message(),
        "parsing config `c.json`"
    );
    assert_eq!(Error::Output(io()).message(), "writing the dry-run plan");
}

#[test]
fn result_alias_defaults_to_the_library_error() {
    let r: ruststruct::Result<()> = Err(Error::UnsafePath("..".to_string()));
    assert!(matches!(r, Err(Error::UnsafePath(ref p)) if p == ".."));
}

#[test]
fn rendered_templates_keep_no_placeholder() {
    for name in ["myapp", "my-cool-app", "", "a}b"] {
        let files = template_files(name);
        assert_eq!(files.len(), 5);
        for (path, body) in files.entries() {
            assert!(!body.contains("{{"), "{name}: {path}: {body}");
        }
    }
}
