//! Command-line interface: the grammar of the command line, and the mapping
//! from parsed arguments to scaffold options.
//!
//! ```text
//! ruststruct [OPTIONS] <PROJECT_DIR>
//!   -n, --name <NAME>  Cargo package name [default: the project directory name]
//!       --git          Run `git init` once the project is in place
//!       --dry-run      Print the plan without writing anything
//!   -h, --help         Print help
//!   -V, --version      Print version
//! ```
//!
//! A value can follow its option as the next argument (`--name acme`), after
//! an `=` (`--name=acme`, `-n=acme`) or glued to the short form (`-nacme`).
//! A separate value may not itself look like an option (start with `-`),
//! except `-` alone. After `--`, every argument is positional. An option may
//! be given once. The project directory may not be empty.
use vstd::prelude::*;

use crate::config::UserConfig;
use crate::file_map::{EntryView, insert_all};
use crate::scaffold::{ScaffoldOptions, default_dirs, opt_view, strings_view};
use crate::text::{chars_eq, chars_of, string_from};

verus! {

/// Parsed command-line arguments.
#[derive(Debug, Clone)]
pub struct Cli {
    /// Directory to create for the new project.
    pub project_dir: String,
    /// Cargo package name [default: the project directory name].
    pub name: Option<String>,
    /// Run `git init` once the project is in place.
    pub git: bool,
    /// Print the plan without writing anything.
    pub dry_run: bool,
}

/// Why the arguments were not turned into a [`Cli`]: a request for help or
/// the version, or a mistake in the command line.
#[derive(Debug)]
pub enum CliError {
    /// `-h` or `--help` was given.
    DisplayHelp,
    /// `-V` or `--version` was given.
    DisplayVersion,
    /// No project directory was given.
    MissingProjectDir,
    /// The option needs a value and none was supplied.
    MissingValue(String),
    /// An argument that is no known option.
    UnknownArgument(String),
    /// A second positional argument.
    UnexpectedArgument(String),
    /// The option was given more than once.
    RepeatedArgument(String),
    /// A value was given to an option that takes none.
    UnexpectedValue(String),
    /// An empty value where a path is required (the project directory).
    EmptyValue(String),
}

/// [`CliError`] as a mathematical value.
pub enum ArgError {
    DisplayHelp,
    DisplayVersion,
    MissingProjectDir,
    MissingValue(Seq<char>),
    UnknownArgument(Seq<char>),
    UnexpectedArgument(Seq<char>),
    RepeatedArgument(Seq<char>),
    UnexpectedValue(Seq<char>),
    EmptyValue(Seq<char>),
}

impl View for CliError {
    type V = ArgError;

    open spec fn view(&self) -> ArgError {
        match self {
            CliError::DisplayHelp => ArgError::DisplayHelp,
            CliError::DisplayVersion => ArgError::DisplayVersion,
            CliError::MissingProjectDir => ArgError::MissingProjectDir,
            CliError::MissingValue(s) => ArgError::MissingValue(s@),
            CliError::UnknownArgument(s) => ArgError::UnknownArgument(s@),
            CliError::UnexpectedArgument(s) => ArgError::UnexpectedArgument(s@),
            CliError::RepeatedArgument(s) => ArgError::RepeatedArgument(s@),
            CliError::UnexpectedValue(s) => ArgError::UnexpectedValue(s@),
            CliError::EmptyValue(s) => ArgError::EmptyValue(s@),
        }
    }
}

/// What has been read of the command line so far.
pub struct ArgState {
    pub project_dir: Option<Seq<char>>,
    pub name: Option<Seq<char>>,
    pub git: bool,
    pub dry_run: bool,
    /// A `--` has been seen: every further argument is positional.
    pub escaped: bool,
}

/// Nothing read yet.
pub open spec fn initial_state() -> ArgState {
    ArgState { project_dir: None, name: None, git: false, dry_run: false, escaped: false }
}

/// Position of the first `c` in `t`, or `t.len()` when there is none.
pub open spec fn index_of(t: Seq<char>, c: char) -> nat
    decreases t.len(),
{
    if t.len() == 0 || t[0] == c {
        0
    } else {
        1 + index_of(t.drop_first(), c)
    }
}

/// An argument that can stand as the separate value of an option.
pub open spec fn is_value(a: Seq<char>) -> bool {
    a.len() == 0 || a[0] != '-' || a == "-"@
}

/// Reading `--name`'s value: `inline` when it came with the option, else the
/// next argument. The result is the position after the value and the state.
pub open spec fn take_name(
    args: Seq<Seq<char>>,
    i: int,
    st: ArgState,
    inline: Option<Seq<char>>,
) -> Result<(int, ArgState), ArgError> {
    if st.name is Some {
        Err(ArgError::RepeatedArgument("--name"@))
    } else {
        match inline {
            Some(v) => Ok((i + 1, ArgState { name: Some(v), ..st })),
            None => if i + 1 < args.len() && is_value(args[i + 1]) {
                Ok((i + 2, ArgState { name: Some(args[i + 1]), ..st }))
            } else {
                Err(ArgError::MissingValue("--name"@))
            },
        }
    }
}

/// Setting a flag that takes no value.
pub open spec fn take_flag(
    flag: Seq<char>,
    already: bool,
    inline: Option<Seq<char>>,
) -> Result<(), ArgError> {
    if inline is Some {
        Err(ArgError::UnexpectedValue(flag))
    } else if already {
        Err(ArgError::RepeatedArgument(flag))
    } else {
        Ok(())
    }
}

/// Reads the argument at `i` (and the one after, for a separate value):
/// the position to go on from and the new state, or why reading stops.
pub open spec fn step(args: Seq<Seq<char>>, i: int, st: ArgState) -> Result<(int, ArgState), ArgError> {
    let a = args[i];
    if !st.escaped && a == "--"@ {
        Ok((i + 1, ArgState { escaped: true, ..st }))
    } else if !st.escaped && a.len() > 2 && a[0] == '-' && a[1] == '-' {
        let t = a.skip(2);
        let k = index_of(t, '=');
        let flag = t.take(k as int);
        let inline = if k < t.len() {
            Some(t.skip(k as int + 1))
        } else {
            None
        };
        if flag == "help"@ {
            if inline is Some {
                Err(ArgError::UnexpectedValue("--help"@))
            } else {
                Err(ArgError::DisplayHelp)
            }
        } else if flag == "version"@ {
            if inline is Some {
                Err(ArgError::UnexpectedValue("--version"@))
            } else {
                Err(ArgError::DisplayVersion)
            }
        } else if flag == "git"@ {
            match take_flag("--git"@, st.git, inline) {
                Ok(_) => Ok((i + 1, ArgState { git: true, ..st })),
                Err(e) => Err(e),
            }
        } else if flag == "dry-run"@ {
            match take_flag("--dry-run"@, st.dry_run, inline) {
                Ok(_) => Ok((i + 1, ArgState { dry_run: true, ..st })),
                Err(e) => Err(e),
            }
        } else if flag == "name"@ {
            take_name(args, i, st, inline)
        } else {
            Err(ArgError::UnknownArgument(a))
        }
    } else if !st.escaped && a.len() > 1 && a[0] == '-' {
        if a[1] == 'h' {
            Err(ArgError::DisplayHelp)
        } else if a[1] == 'V' {
            Err(ArgError::DisplayVersion)
        } else if a[1] == 'n' {
            let rest = a.skip(2);
            if rest.len() > 0 && rest[0] == '=' {
                take_name(args, i, st, Some(rest.skip(1)))
            } else if rest.len() > 0 {
                take_name(args, i, st, Some(rest))
            } else {
                take_name(args, i, st, None)
            }
        } else {
            Err(ArgError::UnknownArgument(a))
        }
    } else if st.project_dir is None {
        if a.len() == 0 {
            Err(ArgError::EmptyValue("<PROJECT_DIR>"@))
        } else {
            Ok((i + 1, ArgState { project_dir: Some(a), ..st }))
        }
    } else {
        Err(ArgError::UnexpectedArgument(a))
    }
}

/// Reads the arguments from position `i` on.
pub open spec fn parse_args(args: Seq<Seq<char>>, i: int, st: ArgState) -> Result<ArgState, ArgError>
    decreases args.len() - i,
{
    if i < 0 || i >= args.len() {
        Ok(st)
    } else {
        match step(args, i, st) {
            Err(e) => Err(e),
            Ok((j, next)) => if j > i {
                parse_args(args, j, next)
            } else {
                Ok(next)
            },
        }
    }
}

/// The whole command line, the program name first: the parsed state with a
/// project directory, or why there is none.
pub open spec fn parse_command_line(args: Seq<Seq<char>>) -> Result<ArgState, ArgError> {
    match parse_args(args, 1, initial_state()) {
        Err(e) => Err(e),
        Ok(st) => if st.project_dir is None {
            Err(ArgError::MissingProjectDir)
        } else {
            Ok(st)
        },
    }
}

/// Mutable parsing state.
struct State {
    project_dir: Option<String>,
    name: Option<String>,
    git: bool,
    dry_run: bool,
    escaped: bool,
}

impl State {
    spec fn view_state(&self) -> ArgState {
        ArgState {
            project_dir: opt_view(self.project_dir),
            name: opt_view(self.name),
            git: self.git,
            dry_run: self.dry_run,
            escaped: self.escaped,
        }
    }
}

fn index_of_exec(t: &Vec<char>, c: char) -> (res: usize)
    ensures
        res == index_of(t@, c),
        res <= t@.len(),
{
    let mut k: usize = 0;
    assert(t@.skip(0) =~= t@);
    while k < t.len() && t[k] != c
        invariant
            k <= t@.len(),
            index_of(t@, c) == k + index_of(t@.skip(k as int), c),
        decreases t.len() - k,
    {
        assert(t@.skip(k as int).drop_first() =~= t@.skip(k + 1));
        k = k + 1;
    }
    k
}

fn skip_chars(t: &Vec<char>, from: usize) -> (res: Vec<char>)
    requires
        from <= t@.len(),
    ensures
        res@ == t@.skip(from as int),
{
    let mut out: Vec<char> = Vec::new();
    let mut i = from;
    while i < t.len()
        invariant
            from <= i <= t@.len(),
            out@ == t@.subrange(from as int, i as int),
        decreases t.len() - i,
    {
        out.push(t[i]);
        assert(out@ =~= t@.subrange(from as int, i + 1));
        i = i + 1;
    }
    assert(out@ =~= t@.skip(from as int));
    out
}

fn take_chars(t: &Vec<char>, n: usize) -> (res: Vec<char>)
    requires
        n <= t@.len(),
    ensures
        res@ == t@.take(n as int),
{
    let mut out: Vec<char> = Vec::new();
    let mut i: usize = 0;
    while i < n
        invariant
            i <= n <= t@.len(),
            out@ == t@.take(i as int),
        decreases n - i,
    {
        out.push(t[i]);
        assert(out@ =~= t@.take(i + 1));
        i = i + 1;
    }
    out
}

fn is_value_exec(a: &Vec<char>) -> (res: bool)
    ensures
        res == is_value(a@),
{
    let dash = chars_of("-");
    a.len() == 0 || a[0] != '-' || chars_eq(a, &dash)
}

/// `take_name` on the exec state.
fn take_name_exec(
    args: &Vec<String>,
    i: usize,
    st: &mut State,
    inline: Option<Vec<char>>,
) -> (res: Result<usize, CliError>)
    requires
        i < args.len(),
    ensures
        match take_name(strings_view(args@), i as int, old(st).view_state(), match inline {
            Some(v) => Some(v@),
            None => None,
        }) {
            Ok((j, next)) => res matches Ok(r) && r == j && final(st).view_state() == next,
            Err(e) => res matches Err(ce) && ce@ == e,
        },
{
    if st.name.is_some() {
        return Err(CliError::RepeatedArgument("--name".to_owned()));
    }
    match inline {
        Some(v) => {
            st.name = Some(string_from(&v));
            Ok(i + 1)
        },
        None => {
            if i + 1 < args.len() {
                let next = chars_of(args[i + 1].as_str());
                if is_value_exec(&next) {
                    st.name = Some(args[i + 1].clone());
                    return Ok(i + 2);
                }
            }
            Err(CliError::MissingValue("--name".to_owned()))
        },
    }
}

/// Sets a flag that takes no value.
fn take_flag_exec(flag: &str, already: bool, inline: &Option<Vec<char>>) -> (res: Result<(), CliError>)
    ensures
        match take_flag(flag@, already, match inline {
            Some(v) => Some(v@),
            None => None,
        }) {
            Ok(_) => res is Ok,
            Err(e) => res matches Err(ce) && ce@ == e,
        },
{
    if inline.is_some() {
        Err(CliError::UnexpectedValue(flag.to_owned()))
    } else if already {
        Err(CliError::RepeatedArgument(flag.to_owned()))
    } else {
        Ok(())
    }
}

/// Reads one argument (and its separate value): `step` on the exec state.
fn step_exec(args: &Vec<String>, i: usize, st: &mut State) -> (res: Result<usize, CliError>)
    requires
        i < args.len(),
    ensures
        match step(strings_view(args@), i as int, old(st).view_state()) {
            Ok((j, next)) => res matches Ok(r) && r == j && final(st).view_state() == next,
            Err(e) => res matches Err(ce) && ce@ == e,
        },
{
    let ghost av = strings_view(args@);
    let a = chars_of(args[i].as_str());
    assert(a@ == av[i as int]);
    let escape = chars_of("--");
    if !st.escaped && chars_eq(&a, &escape) {
        st.escaped = true;
        return Ok(i + 1);
    }
    if !st.escaped && a.len() > 2 && a[0] == '-' && a[1] == '-' {
        let t = skip_chars(&a, 2);
        let k = index_of_exec(&t, '=');
        let flag = take_chars(&t, k);
        let inline: Option<Vec<char>> = if k < t.len() {
            Some(skip_chars(&t, k + 1))
        } else {
            None
        };
        if chars_eq(&flag, &chars_of("help")) {
            if inline.is_some() {
                return Err(CliError::UnexpectedValue("--help".to_owned()));
            }
            return Err(CliError::DisplayHelp);
        } else if chars_eq(&flag, &chars_of("version")) {
            if inline.is_some() {
                return Err(CliError::UnexpectedValue("--version".to_owned()));
            }
            return Err(CliError::DisplayVersion);
        } else if chars_eq(&flag, &chars_of("git")) {
            match take_flag_exec("--git", st.git, &inline) {
                Ok(_) => {
                    st.git = true;
                    return Ok(i + 1);
                },
                Err(e) => return Err(e),
            }
        } else if chars_eq(&flag, &chars_of("dry-run")) {
            match take_flag_exec("--dry-run", st.dry_run, &inline) {
                Ok(_) => {
                    st.dry_run = true;
                    return Ok(i + 1);
                },
                Err(e) => return Err(e),
            }
        } else if chars_eq(&flag, &chars_of("name")) {
            return take_name_exec(args, i, st, inline);
        } else {
            return Err(CliError::UnknownArgument(args[i].clone()));
        }
    }
    if !st.escaped && a.len() > 1 && a[0] == '-' {
        if a[1] == 'h' {
            return Err(CliError::DisplayHelp);
        } else if a[1] == 'V' {
            return Err(CliError::DisplayVersion);
        } else if a[1] == 'n' {
            let rest = skip_chars(&a, 2);
            if rest.len() > 0 && rest[0] == '=' {
                let v = skip_chars(&rest, 1);
                return take_name_exec(args, i, st, Some(v));
            } else if rest.len() > 0 {
                return take_name_exec(args, i, st, Some(rest));
            } else {
                return take_name_exec(args, i, st, None);
            }
        } else {
            return Err(CliError::UnknownArgument(args[i].clone()));
        }
    }
    if st.project_dir.is_none() {
        if a.len() == 0 {
            return Err(CliError::EmptyValue("<PROJECT_DIR>".to_owned()));
        }
        st.project_dir = Some(args[i].clone());
        Ok(i + 1)
    } else {
        Err(CliError::UnexpectedArgument(args[i].clone()))
    }
}

impl Cli {
    /// Parses a command line, the program name first (as `std::env::args`
    /// gives it), following the grammar described for this module.
    pub fn try_parse_from(args: &Vec<String>) -> (res: Result<Cli, CliError>)
        ensures
            match parse_command_line(strings_view(args@)) {
                Ok(st) => res matches Ok(cli) && st.project_dir == Some(cli.project_dir@)
                    && st.name == opt_view(cli.name) && st.git == cli.git && st.dry_run
                    == cli.dry_run,
                Err(e) => res matches Err(ce) && ce@ == e,
            },
            res matches Ok(cli) ==> cli.git == flag_given(strings_view(args@), args.len() as int, "--git"@)
                && cli.dry_run == flag_given(strings_view(args@), args.len() as int, "--dry-run"@),
    {
        proof {
            lemma_flags_independent(strings_view(args@));
        }
        let ghost av = strings_view(args@);
        let mut st = State { project_dir: None, name: None, git: false, dry_run: false, escaped: false };
        let mut i: usize = 1;
        assert(st.view_state() == initial_state());
        while i < args.len()
            invariant
                1 <= i,
                av == strings_view(args@),
                parse_args(av, 1, initial_state()) == parse_args(av, i as int, st.view_state()),
            decreases args.len() - i,
        {
            let ghost before = st.view_state();
            match step_exec(args, i, &mut st) {
                Ok(j) => {
                    assert(parse_args(av, i as int, before) == parse_args(av, j as int, st.view_state()));
                    i = j;
                },
                Err(e) => {
                    return Err(e);
                },
            }
        }
        match st.project_dir {
            Some(dir) => Ok(Cli { project_dir: dir, name: st.name, git: st.git, dry_run: st.dry_run }),
            None => Err(CliError::MissingProjectDir),
        }
    }

    /// Turns parsed arguments plus a user config into scaffold options.
    pub fn into_options(self, config: UserConfig) -> (res: ScaffoldOptions)
        ensures
            res.root@ == self.project_dir@,
            opt_view(res.name) == opt_view(self.name),
            res.git == self.git,
            res.dry_run == self.dry_run,
            strings_view(res.dirs@) == default_dirs() + strings_view(config.dirs@),
            res.files.map() == config.files.map(),
            res.files@ == insert_all(Seq::<EntryView>::empty(), config.files@),
    {
        let base = ScaffoldOptions::new(self.project_dir.as_str());
        assert(base.files@ =~= Seq::<EntryView>::empty());
        let mut opts = base.with_config(config);
        proof {
            assert(Map::<Seq<char>, Seq<char>>::empty().union_prefer_right(config.files.map())
                =~= config.files.map());
        }
        opts.name = self.name;
        opts.git = self.git;
        opts.dry_run = self.dry_run;
        opts
    }
}


// ---------------------------------------------------------------------------
// Laws of the grammar.

/// A `--` stands among the arguments before position `n` (the program name
/// aside).
pub open spec fn escaped_before(args: Seq<Seq<char>>, n: int) -> bool {
    exists|k: int| 1 <= k < n && args[k] == "--"@
}

/// The flag `f` stands among the arguments before position `n`, ahead of any
/// `--`.
pub open spec fn flag_given(args: Seq<Seq<char>>, n: int, f: Seq<char>) -> bool {
    exists|j: int| 1 <= j < n && args[j] == f && !escaped_before(args, j)
}

proof fn lemma_index_of_bounds(t: Seq<char>, c: char)
    ensures
        index_of(t, c) <= t.len(),
        (forall|q: int| 0 <= q < t.len() ==> t[q] != c) ==> index_of(t, c) == t.len(),
    decreases t.len(),
{
    if t.len() > 0 && t[0] != c {
        lemma_index_of_bounds(t.drop_first(), c);
        assert forall|q: int| 0 <= q < t.len() - 1 implies t.drop_first()[q] == t[q + 1] by {}
    }
}

/// A long option written out in full, without a value: reading it sees the
/// option's name and no inline value.
proof fn lemma_plain_long(a: Seq<char>, word: Seq<char>)
    requires
        a == "--"@ + word,
        word.len() > 0,
        forall|q: int| 0 <= q < word.len() ==> word[q] != '=',
    ensures
        a.len() > 2,
        a[0] == '-' && a[1] == '-',
        a.skip(2) == word,
        index_of(a.skip(2), '=') == word.len(),
        a.skip(2).take(index_of(a.skip(2), '=') as int) == word,
{
    reveal_strlit("--");
    assert(a.skip(2) =~= word);
    lemma_index_of_bounds(word, '=');
    assert(word.take(word.len() as int) =~= word);
}

/// One step of reading changes `git`, `dry_run` and `escaped` only for the
/// argument that names them, and consumes the argument and at most one value
/// after it, which is never an option; `--git` and `--dry-run` each set
/// their own field and change nothing else.
pub proof fn lemma_step_flags(args: Seq<Seq<char>>, i: int, st: ArgState)
    requires
        0 <= i < args.len(),
        step(args, i, st) is Ok,
    ensures
        step(args, i, st) matches Ok((j, nx)) && {
            &&& nx.git == (st.git || (!st.escaped && args[i] == "--git"@))
            &&& nx.dry_run == (st.dry_run || (!st.escaped && args[i] == "--dry-run"@))
            &&& nx.escaped == (st.escaped || args[i] == "--"@)
            &&& (j == i + 1 || (j == i + 2 && i + 1 < args.len() && is_value(args[i + 1])))
            &&& !st.escaped && args[i] == "--git"@ ==> j == i + 1 && nx == ArgState { git: true, ..st }
            &&& !st.escaped && args[i] == "--dry-run"@ ==> j == i + 1 && nx == ArgState {
                dry_run: true,
                ..st
            }
        },
{
    reveal_strlit("--");
    reveal_strlit("--git");
    reveal_strlit("--dry-run");
    reveal_strlit("git");
    reveal_strlit("dry-run");
    reveal_strlit("help");
    reveal_strlit("version");
    reveal_strlit("name");
    let a = args[i];
    assert("--"@.len() == 2);
    assert("--git"@.len() == 5 && "--dry-run"@.len() == 9);
    if a == "--git"@ {
        assert(a =~= "--"@ + "git"@);
        lemma_plain_long(a, "git"@);
    } else if a == "--dry-run"@ {
        assert(a =~= "--"@ + "dry-run"@);
        lemma_plain_long(a, "dry-run"@);
    }
    if !st.escaped && a == "--"@ {
    } else if !st.escaped && a.len() > 2 && a[0] == '-' && a[1] == '-' {
        let t = a.skip(2);
        let k = index_of(t, '=');
        lemma_index_of_bounds(t, '=');
        let flag = t.take(k as int);
        let inline = if k < t.len() {
            Some(t.skip(k as int + 1))
        } else {
            None::<Seq<char>>
        };
        if flag == "git"@ {
            assert(inline is None);
            assert(k == t.len());
            assert(t.take(k as int) =~= t);
            assert(a =~= "--"@ + t);
            assert(a == "--git"@);
        } else if flag == "dry-run"@ {
            assert(inline is None);
            assert(k == t.len());
            assert(t.take(k as int) =~= t);
            assert(a =~= "--"@ + t);
            assert(a == "--dry-run"@);
        } else {
            assert(a != "--git"@ && a != "--dry-run"@);
        }
    } else {
        assert(a != "--git"@ && a != "--dry-run"@ || st.escaped);
    }
}

proof fn lemma_prefix_step(args: Seq<Seq<char>>, n: int, f: Seq<char>)
    requires
        1 <= n < args.len(),
    ensures
        escaped_before(args, n + 1) == (escaped_before(args, n) || args[n] == "--"@),
        flag_given(args, n + 1, f) == (flag_given(args, n, f) || (args[n] == f && !escaped_before(
            args,
            n,
        ))),
{
    if escaped_before(args, n + 1) && !escaped_before(args, n) {
        let k = choose|k: int| 1 <= k < n + 1 && args[k] == "--"@;
        assert(k == n);
    }
    if args[n] == "--"@ {
        assert(1 <= n < n + 1 && args[n] == "--"@);
    }
    if escaped_before(args, n) {
        let k = choose|k: int| 1 <= k < n && args[k] == "--"@;
        assert(1 <= k < n + 1 && args[k] == "--"@);
    }
    if flag_given(args, n + 1, f) && !flag_given(args, n, f) {
        let j = choose|j: int| 1 <= j < n + 1 && args[j] == f && !escaped_before(args, j);
        assert(j == n);
    }
    if flag_given(args, n, f) {
        let j = choose|j: int| 1 <= j < n && args[j] == f && !escaped_before(args, j);
        assert(1 <= j < n + 1 && args[j] == f && !escaped_before(args, j));
    }
    if args[n] == f && !escaped_before(args, n) {
        assert(1 <= n < n + 1 && args[n] == f && !escaped_before(args, n));
    }
}

proof fn lemma_parse_flags(args: Seq<Seq<char>>, i: int, st: ArgState)
    requires
        1 <= i <= args.len(),
        parse_args(args, i, st) is Ok,
        st.escaped == escaped_before(args, i),
        st.git == flag_given(args, i, "--git"@),
        st.dry_run == flag_given(args, i, "--dry-run"@),
    ensures
        parse_args(args, i, st) matches Ok(fin) && fin.git == flag_given(args, args.len() as int, "--git"@)
            && fin.dry_run == flag_given(args, args.len() as int, "--dry-run"@),
    decreases args.len() - i,
{
    if i < args.len() {
        lemma_step_flags(args, i, st);
        let (j, nx) = step(args, i, st)->Ok_0;
        lemma_prefix_step(args, i, "--git"@);
        lemma_prefix_step(args, i, "--dry-run"@);
        if j == i + 2 {
            reveal_strlit("--");
            reveal_strlit("--git");
            reveal_strlit("--dry-run");
            reveal_strlit("-");
            let v = args[i + 1];
            assert(is_value(v));
            assert("-"@.len() == 1);
            assert("--"@.len() == 2 && "--"@[0] == '-');
            assert("--git"@.len() == 5 && "--git"@[0] == '-');
            assert("--dry-run"@.len() == 9 && "--dry-run"@[0] == '-');
            assert(v != "--"@ && v != "--git"@ && v != "--dry-run"@);
            lemma_prefix_step(args, i + 1, "--git"@);
            lemma_prefix_step(args, i + 1, "--dry-run"@);
        }
        lemma_parse_flags(args, j, nx);
    }
}

/// Flags are independent of where they stand and of each other: a command
/// line that parses has `git` set exactly when `--git` occurs in it, and
/// `dry_run` set exactly when `--dry-run` occurs in it, before any `--`.
pub proof fn lemma_flags_independent(args: Seq<Seq<char>>)
    ensures
        parse_command_line(args) matches Ok(st) ==> st.git == flag_given(
            args,
            args.len() as int,
            "--git"@,
        ) && st.dry_run == flag_given(args, args.len() as int, "--dry-run"@),
{
    if args.len() >= 1 && parse_args(args, 1, initial_state()) is Ok {
        lemma_parse_flags(args, 1, initial_state());
    }
}

} // verus!
