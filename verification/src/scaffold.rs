//! The scaffolding engine: plan a project layout.
//!
//! A run is described entirely by [`ScaffoldOptions`]. [`plan`] turns it into
//! the directories and files to create, refusing a target that already exists
//! and any path that would escape the project root; [`dry_run_report`] renders
//! a plan as text. Creating the files is left to the program around the
//! library.
use vstd::prelude::*;

use crate::config::UserConfig;
use crate::dir_set::{
    DirSet, dir_collect, dir_insert, dir_insert_all, dir_replace, lemma_dir_collect,
    lemma_dir_insert_all, lemma_sorted_unique, paths_sorted,
};
use crate::error::Error;
use crate::file_map::{
    EntryView, FileMap, entries_map, insert_all, keys_of, keys_sorted, lemma_entries_map_keys,
    lemma_entries_map_sorted, lemma_entries_map_values, lemma_insert_all, pairs_view,
};
use crate::path::{
    Component, components, components_of, components_prefix, comps_view, file_name, file_name_spec,
    is_safe_relative_spec, join, join_spec, lemma_join_components, lemma_join_name, lemma_parent_components, parent,
    parent_spec, path_eq, safe_relative_chars, starts_with_spec,
};
use crate::text::{
    append_chars, append_str, chars_of, lemma_brace_free, lemma_double_brace_join,
    lemma_replace_char, lemma_replace_hit, lemma_replace_passes, lemma_replace_skips,
    no_double_brace, open_end_free, replace, replace_all, string_from, trim, trim_chars,
};

verus! {

/// Directories created in every new project.
pub const DEFAULT_DIRS: [&'static str; 4] = ["src", "tests", "benches", "examples"];

pub const GITIGNORE: &'static str = "/target\n**/*.rs.bk\n";

pub const MAIN_RS: &'static str = "fn main() {
    println!(\"{}\", {{crate}}::greet(\"{{name}}\"));
}
";

pub const LIB_RS: &'static str = "//! Library crate for `{{name}}`.

/// Returns a friendly greeting for `who`.
#[must_use]
pub fn greet(who: &str) -> String {
    format!(\"Hello, {who}!\")
}

#[cfg(test)]
mod tests {
    use super::greet;

    #[test]
    fn greets_by_name() {
        assert_eq!(greet(\"world\"), \"Hello, world!\");
    }
}
";

pub const INTEGRATION_RS: &'static str = "//! Integration tests exercise `{{name}}` through its public API only.

#[test]
fn library_is_reachable_from_integration_tests() {
    assert_eq!({{crate}}::greet(\"integration\"), \"Hello, integration!\");
}
";

pub const EXAMPLE_RS: &'static str = "//! Run with `cargo run --example hello`.

fn main() {
    println!(\"{}\", {{crate}}::greet(\"example\"));
}
";

/// The views of a sequence of strings.
pub open spec fn strings_view(v: Seq<String>) -> Seq<Seq<char>> {
    v.map_values(|s: String| s@)
}

/// The view of an optional string.
pub open spec fn opt_view(o: Option<String>) -> Option<Seq<char>> {
    match o {
        Some(s) => Some(s@),
        None => None,
    }
}

/// The built-in directory list.
pub open spec fn default_dirs() -> Seq<Seq<char>> {
    seq!["src"@, "tests"@, "benches"@, "examples"@]
}

/// The crate path for a package name: every `-` becomes `_`.
pub open spec fn crate_ident(name: Seq<char>) -> Seq<char> {
    replace(name, "-"@, "_"@)
}

/// The crate path of a package name has the same length and no `-`: every
/// `-` became `_` and nothing else changed.
pub proof fn lemma_crate_ident(name: Seq<char>)
    ensures
        crate_ident(name).len() == name.len(),
        forall|i: int| 0 <= i < name.len() ==> #[trigger] crate_ident(name)[i] == if name[i] == '-' {
            '_'
        } else {
            name[i]
        },
        forall|i: int| 0 <= i < name.len() ==> #[trigger] crate_ident(name)[i] != '-',
{
    reveal_strlit("-");
    reveal_strlit("_");
    assert("-"@ =~= seq!['-']);
    assert("_"@ =~= seq!['_']);
    lemma_replace_char(name, '-', '_');
}

/// A template with `{{crate}}` and then `{{name}}` filled in.
pub open spec fn render(template: Seq<char>, name: Seq<char>) -> Seq<char> {
    replace(replace(template, "{{crate}}"@, crate_ident(name)), "{{name}}"@, name)
}

/// The built-in files for a project named `name`, in the order they are inserted.
pub open spec fn template_pairs(name: Seq<char>) -> Seq<EntryView> {
    seq![
        (".gitignore"@, GITIGNORE@),
        ("src/main.rs"@, render(MAIN_RS@, name)),
        ("src/lib.rs"@, render(LIB_RS@, name)),
        ("tests/integration.rs"@, render(INTEGRATION_RS@, name)),
        ("examples/hello.rs"@, render(EXAMPLE_RS@, name)),
    ]
}

/// The package name: the one given, or else the last component of `root`.
pub open spec fn package_name_spec(root: Seq<char>, name: Option<Seq<char>>) -> Option<Seq<char>> {
    match name {
        Some(n) => Some(n),
        None => file_name_spec(root),
    }
}

/// Everything a single scaffold run needs to know.
#[derive(Debug, Clone, PartialEq, Eq)]
pub struct ScaffoldOptions {
    /// Directory to create. Must not already exist.
    pub root: String,
    /// Cargo package name. Defaults to the last component of [`Self::root`].
    pub name: Option<String>,
    /// Run `git init` once the project is in place.
    pub git: bool,
    /// Print the plan instead of writing anything.
    pub dry_run: bool,
    /// Directories to create, relative to [`Self::root`].
    pub dirs: Vec<String>,
    /// Extra files to write, relative to [`Self::root`].
    ///
    /// Entries here override the built-in templates of the same path.
    pub files: FileMap,
}

impl ScaffoldOptions {
    /// Starts from the built-in defaults for `root`.
    pub fn new(root: &str) -> (res: ScaffoldOptions)
        ensures
            res.root@ == root@,
            res.name is None,
            !res.git,
            !res.dry_run,
            strings_view(res.dirs@) == default_dirs(),
            res.files@.len() == 0,
            res.files.map() == Map::<Seq<char>, Seq<char>>::empty(),
    {
        let mut dirs: Vec<String> = Vec::new();
        let ghost names: Seq<&str> = seq!["src", "tests", "benches", "examples"];
        assert(DEFAULT_DIRS@ =~= names);
        assert(names.map_values(|s: &str| s@) =~= default_dirs());
        let mut i: usize = 0;
        while i < 4
            invariant
                i <= 4,
                DEFAULT_DIRS@ == names,
                names.map_values(|s: &str| s@) == default_dirs(),
                strings_view(dirs@) == default_dirs().take(i as int),
            decreases 4 - i,
        {
            let d = DEFAULT_DIRS[i];
            assert(d@ == default_dirs()[i as int]) by {
                assert(names.map_values(|s: &str| s@)[i as int] == names[i as int]@);
            }
            let owned = d.to_owned();
            let ghost prev = dirs@;
            dirs.push(owned);
            assert(strings_view(dirs@) =~= strings_view(prev).push(owned@));
            assert(default_dirs().take(i + 1) =~= default_dirs().take(i as int).push(
                default_dirs()[i as int],
            ));
            i = i + 1;
        }
        assert(default_dirs().take(4) =~= default_dirs());
        ScaffoldOptions {
            root: root.to_owned(),
            name: None,
            git: false,
            dry_run: false,
            dirs,
            files: FileMap::new(),
        }
    }

    /// Layers a user config on top of the defaults: its directories come
    /// after the current ones, and its files replace those of the same path.
    pub fn with_config(self, config: UserConfig) -> (res: ScaffoldOptions)
        ensures
            res.root == self.root,
            res.name == self.name,
            res.git == self.git,
            res.dry_run == self.dry_run,
            strings_view(res.dirs@) == strings_view(self.dirs@) + strings_view(config.dirs@),
            res.files.map() == self.files.map().union_prefer_right(config.files.map()),
            res.files@ == insert_all(self.files@, config.files@),
    {
        let mut res = self;
        let mut extra = config.dirs;
        let ghost before = strings_view(res.dirs@);
        let ghost added = strings_view(extra@);
        res.dirs.append(&mut extra);
        assert(strings_view(res.dirs@) =~= before + added);
        res.files.extend(&config.files);
        res
    }

    /// Resolves the package name, deriving it from the path when absent.
    ///
    /// Fails with [`Error::UnnamedRoot`] when no name was given and the path
    /// has no usable final component (for example `.` or `..`).
    pub fn package_name(&self) -> (res: Result<String, Error>)
        ensures
            match package_name_spec(self.root@, opt_view(self.name)) {
                Some(n) => res matches Ok(r) && r@ == n,
                None => res matches Err(Error::UnnamedRoot(r)) && r@ == self.root@,
            },
    {
        match &self.name {
            Some(n) => Ok(n.clone()),
            None => {
                let root = chars_of(self.root.as_str());
                match file_name(&root) {
                    Some(f) => Ok(string_from(&f)),
                    None => Err(Error::UnnamedRoot(self.root.clone())),
                }
            },
        }
    }
}

/// Fills in the placeholders of a template.
fn render_template(template: &str, name: &Vec<char>, crate_name: &Vec<char>) -> (res: String)
    requires
        crate_name@ == crate_ident(name@),
    ensures
        res@ == render(template@, name@),
{
    let t = chars_of(template);
    let crate_pat = chars_of("{{crate}}");
    let name_pat = chars_of("{{name}}");
    proof {
        reveal_strlit("{{crate}}");
        reveal_strlit("{{name}}");
    }
    let with_crate = replace_all(&t, &crate_pat, crate_name);
    let rendered = replace_all(&with_crate, &name_pat, name);
    string_from(&rendered)
}

/// The built-in files map each path to its own template, rendered for the
/// package name: `.gitignore` as it is, `src/main.rs` from the binary
/// template, `src/lib.rs` from the library template, `tests/integration.rs`
/// from the integration-test template and `examples/hello.rs` from the
/// example template.
pub proof fn lemma_builtin_files(name: Seq<char>)
    ensures
        entries_map(insert_all(Seq::<EntryView>::empty(), template_pairs(name))) == map![
            ".gitignore"@ => GITIGNORE@,
            "src/main.rs"@ => render(MAIN_RS@, name),
            "src/lib.rs"@ => render(LIB_RS@, name),
            "tests/integration.rs"@ => render(INTEGRATION_RS@, name),
            "examples/hello.rs"@ => render(EXAMPLE_RS@, name),
        ],
{
    let tp = template_pairs(name);
    lemma_insert_all(Seq::<EntryView>::empty(), tp);
    let t4 = tp.drop_last();
    let t3 = t4.drop_last();
    let t2 = t3.drop_last();
    let t1 = t2.drop_last();
    let t0 = t1.drop_last();
    assert(t0 =~= Seq::<EntryView>::empty());
    assert(entries_map(t1) == entries_map(t0).insert(".gitignore"@, GITIGNORE@));
    assert(entries_map(t2) == entries_map(t1).insert("src/main.rs"@, render(MAIN_RS@, name)));
    assert(entries_map(t3) == entries_map(t2).insert("src/lib.rs"@, render(LIB_RS@, name)));
    assert(entries_map(t4) == entries_map(t3).insert(
        "tests/integration.rs"@,
        render(INTEGRATION_RS@, name),
    ));
    assert(entries_map(tp) == entries_map(t4).insert("examples/hello.rs"@, render(EXAMPLE_RS@, name)));
    assert(entries_map(Seq::<EntryView>::empty()).union_prefer_right(entries_map(tp)) =~= entries_map(
        tp,
    ));
    assert(entries_map(tp) =~= map![
        ".gitignore"@ => GITIGNORE@,
        "src/main.rs"@ => render(MAIN_RS@, name),
        "src/lib.rs"@ => render(LIB_RS@, name),
        "tests/integration.rs"@ => render(INTEGRATION_RS@, name),
        "examples/hello.rs"@ => render(EXAMPLE_RS@, name),
    ]);
}

/// Built-in files for a project named `name`.
pub fn template_files(name: &str) -> (res: FileMap)
    ensures
        res@ == insert_all(Seq::<EntryView>::empty(), template_pairs(name@)),
        res.map() == map![
            ".gitignore"@ => GITIGNORE@,
            "src/main.rs"@ => render(MAIN_RS@, name@),
            "src/lib.rs"@ => render(LIB_RS@, name@),
            "tests/integration.rs"@ => render(INTEGRATION_RS@, name@),
            "examples/hello.rs"@ => render(EXAMPLE_RS@, name@),
        ],
{
    proof {
        lemma_builtin_files(name@);
    }
    let n = chars_of(name);
    let dash = chars_of("-");
    let underscore = chars_of("_");
    proof {
        reveal_strlit("-");
    }
    let crate_name = replace_all(&n, &dash, &underscore);
    let mut pairs: Vec<(String, String)> = Vec::new();
    pairs.push((".gitignore".to_owned(), GITIGNORE.to_owned()));
    pairs.push(("src/main.rs".to_owned(), render_template(MAIN_RS, &n, &crate_name)));
    pairs.push(("src/lib.rs".to_owned(), render_template(LIB_RS, &n, &crate_name)));
    pairs.push(
        ("tests/integration.rs".to_owned(), render_template(INTEGRATION_RS, &n, &crate_name)),
    );
    pairs.push(("examples/hello.rs".to_owned(), render_template(EXAMPLE_RS, &n, &crate_name)));
    assert(pairs_view(pairs@) =~= template_pairs(name@));
    FileMap::from_pairs(pairs)
}


// ---------------------------------------------------------------------------
// Rendering fills every placeholder: a template is text broken by
// `{{crate}}` and `{{name}}`, and the text between them never holds two `{`
// in a row, so once both are replaced nothing of the form `{{..}}` is left.

/// A piece of a template: one of the two placeholders, or text with no
/// double brace that does not end with `{`.
pub open spec fn template_piece(q: Seq<char>) -> bool {
    q == "{{crate}}"@ || q == "{{name}}"@ || (no_double_brace(q) && open_end_free(q))
}

/// `q`, or `to` where `q` is the placeholder `pat`.
pub open spec fn fill(q: Seq<char>, pat: Seq<char>, to: Seq<char>) -> Seq<char> {
    if q == pat {
        to
    } else {
        q
    }
}

/// `q`, or what rendering for `name` puts in its place where it is a
/// placeholder.
pub open spec fn fill_both(q: Seq<char>, name: Seq<char>) -> Seq<char> {
    if q == "{{crate}}"@ {
        crate_ident(name)
    } else if q == "{{name}}"@ {
        name
    } else {
        q
    }
}

/// What the two placeholders look like.
proof fn lemma_placeholder_shapes()
    ensures
        "{{crate}}"@.len() == 9,
        "{{name}}"@.len() == 8,
        "{{crate}}"@[0] == '{' && "{{crate}}"@[1] == '{' && "{{crate}}"@[2] == 'c',
        "{{name}}"@[0] == '{' && "{{name}}"@[1] == '{' && "{{name}}"@[2] == 'n',
        "{{crate}}"@.last() == '}' && "{{name}}"@.last() == '}',
        no_double_brace("{{crate}}"@.drop_first()),
        no_double_brace("{{name}}"@.drop_first()),
        "{{crate}}"@ != "{{name}}"@,
{
    reveal_strlit("{{crate}}");
    reveal_strlit("{{name}}");
    let c = "{{crate}}"@.drop_first();
    let n = "{{name}}"@.drop_first();
    assert(forall|i: int| 0 <= i < c.len() - 1 ==> !(#[trigger] c[i] == '{' && c[i + 1] == '{'));
    assert(forall|i: int| 0 <= i < n.len() - 1 ==> !(#[trigger] n[i] == '{' && n[i + 1] == '{'));
}

/// Replacing a placeholder in a text made of template pieces replaces it in
/// each piece.
proof fn lemma_fill_pieces(ps: Seq<Seq<char>>, pat: Seq<char>, to: Seq<char>)
    requires
        pat == "{{crate}}"@ || pat == "{{name}}"@,
        forall|i: int| 0 <= i < ps.len() ==> template_piece(#[trigger] ps[i]),
    ensures
        replace(ps.flatten(), pat, to) == ps.map_values(|q: Seq<char>| fill(q, pat, to)).flatten(),
    decreases ps.len(),
{
    lemma_placeholder_shapes();
    let f = |q: Seq<char>| fill(q, pat, to);
    if ps.len() == 0 {
        assert(ps.map_values(f) =~= Seq::<Seq<char>>::empty());
    } else {
        let q = ps.first();
        let rest = ps.drop_first();
        assert(template_piece(ps[0]));
        assert forall|i: int| 0 <= i < rest.len() implies template_piece(#[trigger] rest[i]) by {
            assert(rest[i] == ps[i + 1]);
        }
        lemma_fill_pieces(rest, pat, to);
        let y = rest.flatten();
        if q == pat {
            lemma_replace_hit(y, pat, to);
        } else if q == "{{crate}}"@ || q == "{{name}}"@ {
            if (q + y).len() >= pat.len() && (q + y).take(pat.len() as int) == pat {
                assert((q + y).take(pat.len() as int)[2] == q[2]);
            }
            lemma_replace_skips(q, y, pat, to);
        } else {
            lemma_replace_passes(q, y, pat, to);
        }
        assert(ps.map_values(f).drop_first() =~= rest.map_values(f));
        assert(ps.map_values(f).first() == fill(q, pat, to));
    }
}

/// Text made of pieces with no double brace, none ending with `{`, has no
/// double brace and does not end with `{`.
proof fn lemma_flatten_no_double_brace(ps: Seq<Seq<char>>)
    requires
        forall|i: int|
            0 <= i < ps.len() ==> no_double_brace(#[trigger] ps[i]) && open_end_free(ps[i]),
    ensures
        no_double_brace(ps.flatten()),
        open_end_free(ps.flatten()),
    decreases ps.len(),
{
    if ps.len() > 0 {
        let rest = ps.drop_first();
        assert(no_double_brace(ps[0]) && open_end_free(ps[0]));
        assert forall|i: int| 0 <= i < rest.len() implies no_double_brace(#[trigger] rest[i])
            && open_end_free(rest[i]) by {
            assert(rest[i] == ps[i + 1]);
        }
        lemma_flatten_no_double_brace(rest);
        lemma_double_brace_join(ps.first(), rest.flatten());
    }
}

/// A template made of pieces renders, for a name without `{`, to text with
/// no double brace.
proof fn lemma_render_pieces(ps: Seq<Seq<char>>, name: Seq<char>)
    requires
        forall|i: int| 0 <= i < ps.len() ==> template_piece(#[trigger] ps[i]),
        forall|i: int| 0 <= i < name.len() ==> #[trigger] name[i] != '{',
    ensures
        no_double_brace(render(ps.flatten(), name)),
        render(ps.flatten(), name) == ps.map_values(|q: Seq<char>| fill_both(q, name)).flatten(),
{
    lemma_placeholder_shapes();
    let cr = crate_ident(name);
    lemma_crate_ident(name);
    assert forall|i: int| 0 <= i < cr.len() implies #[trigger] cr[i] != '{' by {
        assert(cr[i] == if name[i] == '-' { '_' } else { name[i] });
    }
    lemma_brace_free(cr);
    lemma_brace_free(name);
    let c = "{{crate}}"@;
    let n = "{{name}}"@;
    lemma_fill_pieces(ps, c, cr);
    let ps1 = ps.map_values(|q: Seq<char>| fill(q, c, cr));
    assert forall|i: int| 0 <= i < ps1.len() implies template_piece(#[trigger] ps1[i]) && ps1[i] != c by {
        assert(template_piece(ps[i]));
        if ps[i] == c {
            assert(ps1[i] == cr);
            if cr == c {
                assert(cr[0] == '{');
            }
        }
    }
    lemma_fill_pieces(ps1, n, name);
    let ps2 = ps1.map_values(|q: Seq<char>| fill(q, n, name));
    assert forall|i: int| 0 <= i < ps2.len() implies no_double_brace(#[trigger] ps2[i]) && open_end_free(ps2[i]) by {
        assert(template_piece(ps1[i]) && ps1[i] != c);
    }
    lemma_flatten_no_double_brace(ps2);
    assert forall|i: int| 0 <= i < ps.len() implies #[trigger] ps2[i] == fill_both(ps[i], name) by {
        if ps[i] == c {
            assert(ps1[i] == cr);
            if cr == n {
                assert(cr[0] == '{');
            }
        }
    }
    assert(ps2 =~= ps.map_values(|q: Seq<char>| fill_both(q, name)));
}

/// The text of three pieces, one after the other.
proof fn lemma_flatten3(a: Seq<char>, b: Seq<char>, c: Seq<char>)
    ensures
        seq![a, b, c].flatten() == a + b + c,
{
    let s = seq![a, b, c];
    assert(s.drop_first() =~= seq![b, c]);
    assert(seq![b, c].drop_first() =~= seq![c]);
    assert(seq![c].drop_first() =~= Seq::<Seq<char>>::empty());
    assert(Seq::<Seq<char>>::empty().flatten() == Seq::<char>::empty());
    assert(seq![c].flatten() == c + seq![c].drop_first().flatten());
    assert(seq![c].flatten() =~= c);
    assert(seq![b, c].flatten() =~= b + c);
    assert(s.flatten() =~= a + b + c);
}

/// The text of five pieces, one after the other.
proof fn lemma_flatten5(a: Seq<char>, b: Seq<char>, c: Seq<char>, d: Seq<char>, e: Seq<char>)
    ensures
        seq![a, b, c, d, e].flatten() == a + b + c + d + e,
{
    let s = seq![a, b, c, d, e];
    assert(s.drop_first() =~= seq![b, c, d, e]);
    assert(seq![b, c, d, e].drop_first() =~= seq![c, d, e]);
    lemma_flatten3(c, d, e);
    assert(seq![b, c, d, e].flatten() =~= b + (c + d + e));
    assert(s.flatten() =~= a + b + c + d + e);
}

/// A template given as its pieces renders, for a name without `{`, to text
/// with no double brace: each piece must be a placeholder, or text with no
/// two `{` in a row that does not end with `{`.
proof fn lemma_render_template(t: Seq<char>, ps: Seq<Seq<char>>, name: Seq<char>)
    requires
        t == ps.flatten(),
        forall|i: int|
            0 <= i < ps.len() && ps[i] != "{{crate}}"@ && ps[i] != "{{name}}"@ ==> (forall|k: int|
                0 <= k < ps[i].len() - 1 ==> !(#[trigger] ps[i][k] == '{' && ps[i][k + 1] == '{'))
                && open_end_free(#[trigger] ps[i]),
        forall|i: int| 0 <= i < name.len() ==> #[trigger] name[i] != '{',
    ensures
        no_double_brace(render(t, name)),
        render(t, name) == ps.map_values(|q: Seq<char>| fill_both(q, name)).flatten(),
{
    assert forall|i: int| 0 <= i < ps.len() implies template_piece(#[trigger] ps[i]) by {
        if ps[i] != "{{crate}}"@ && ps[i] != "{{name}}"@ {
            assert(open_end_free(ps[i]));
        }
    }
    lemma_render_pieces(ps, name);
}

/// For every package name without `{`, each template renders to its text
/// with `{{crate}}` replaced by the crate path of the name and `{{name}}` by
/// the name itself, and no built-in file keeps a double brace, so no
/// `{{crate}}`, `{{name}}` or other `{{..}}` placeholder survives.
pub proof fn lemma_templates_fill_placeholders(name: Seq<char>)
    requires
        forall|i: int| 0 <= i < name.len() ==> #[trigger] name[i] != '{',
    ensures
        forall|j: int|
            0 <= j < template_pairs(name).len() ==> no_double_brace(#[trigger] template_pairs(name)[j].1),
        forall|j: int|
            0 <= j < insert_all(Seq::<EntryView>::empty(), template_pairs(name)).len() ==> no_double_brace(
                (#[trigger] insert_all(Seq::<EntryView>::empty(), template_pairs(name))[j]).1,
            ),
        render(MAIN_RS@, name) == "fn main() {
    println!(\"{}\", "@ + crate_ident(name) + "::greet(\""@ + name + "\"));
}
"@,
        render(LIB_RS@, name) == "//! Library crate for `"@ + name + "`.

/// Returns a friendly greeting for `who`.
#[must_use]
pub fn greet(who: &str) -> String {
    format!(\"Hello, {who}!\")
}

#[cfg(test)]
mod tests {
    use super::greet;

    #[test]
    fn greets_by_name() {
        assert_eq!(greet(\"world\"), \"Hello, world!\");
    }
}
"@,
        render(INTEGRATION_RS@, name) == "//! Integration tests exercise `"@ + name + "` through its public API only.

#[test]
fn library_is_reachable_from_integration_tests() {
    assert_eq!("@ + crate_ident(name) + "::greet(\"integration\"), \"Hello, integration!\");
}
"@,
        render(EXAMPLE_RS@, name) == "//! Run with `cargo run --example hello`.

fn main() {
    println!(\"{}\", "@ + crate_ident(name) + "::greet(\"example\"));
}
"@,
{
    lemma_placeholder_shapes();
    assert(no_double_brace(render(MAIN_RS@, name)) && render(MAIN_RS@, name) == "fn main() {
    println!(\"{}\", "@ + crate_ident(name) + "::greet(\""@ + name + "\"));
}
"@) by {
        reveal_strlit("fn main() {
    println!(\"{}\", {{crate}}::greet(\"{{name}}\"));
}
");
        reveal_strlit("fn main() {
    println!(\"{}\", ");
        reveal_strlit("::greet(\"");
        reveal_strlit("\"));
}
");
        reveal_strlit("{{crate}}");
        reveal_strlit("{{name}}");
        lemma_flatten5("fn main() {
    println!(\"{}\", "@, "{{crate}}"@, "::greet(\""@, "{{name}}"@, "\"));
}
"@);
        assert(MAIN_RS@ =~= "fn main() {
    println!(\"{}\", "@ + "{{crate}}"@ + "::greet(\""@ + "{{name}}"@ + "\"));
}
"@);
        lemma_render_template(MAIN_RS@, seq!["fn main() {
    println!(\"{}\", "@, "{{crate}}"@, "::greet(\""@, "{{name}}"@, "\"));
}
"@], name);
        assert(seq!["fn main() {
    println!(\"{}\", "@, "{{crate}}"@, "::greet(\""@, "{{name}}"@, "\"));
}
"@].map_values(|q: Seq<char>| fill_both(q, name)) =~= seq!["fn main() {
    println!(\"{}\", "@, crate_ident(name), "::greet(\""@, name, "\"));
}
"@]);
        lemma_flatten5("fn main() {
    println!(\"{}\", "@, crate_ident(name), "::greet(\""@, name, "\"));
}
"@);
    }
    assert(no_double_brace(render(LIB_RS@, name)) && render(LIB_RS@, name) == "//! Library crate for `"@ + name + "`.

/// Returns a friendly greeting for `who`.
#[must_use]
pub fn greet(who: &str) -> String {
    format!(\"Hello, {who}!\")
}

#[cfg(test)]
mod tests {
    use super::greet;

    #[test]
    fn greets_by_name() {
        assert_eq!(greet(\"world\"), \"Hello, world!\");
    }
}
"@) by {
        reveal_strlit("//! Library crate for `{{name}}`.

/// Returns a friendly greeting for `who`.
#[must_use]
pub fn greet(who: &str) -> String {
    format!(\"Hello, {who}!\")
}

#[cfg(test)]
mod tests {
    use super::greet;

    #[test]
    fn greets_by_name() {
        assert_eq!(greet(\"world\"), \"Hello, world!\");
    }
}
");
        reveal_strlit("//! Library crate for `");
        reveal_strlit("`.

/// Returns a friendly greeting for `who`.
#[must_use]
pub fn greet(who: &str) -> String {
    format!(\"Hello, {who}!\")
}

#[cfg(test)]
mod tests {
    use super::greet;

    #[test]
    fn greets_by_name() {
        assert_eq!(greet(\"world\"), \"Hello, world!\");
    }
}
");
        reveal_strlit("{{crate}}");
        reveal_strlit("{{name}}");
        lemma_flatten3("//! Library crate for `"@, "{{name}}"@, "`.

/// Returns a friendly greeting for `who`.
#[must_use]
pub fn greet(who: &str) -> String {
    format!(\"Hello, {who}!\")
}

#[cfg(test)]
mod tests {
    use super::greet;

    #[test]
    fn greets_by_name() {
        assert_eq!(greet(\"world\"), \"Hello, world!\");
    }
}
"@);
        assert(LIB_RS@ =~= "//! Library crate for `"@ + "{{name}}"@ + "`.

/// Returns a friendly greeting for `who`.
#[must_use]
pub fn greet(who: &str) -> String {
    format!(\"Hello, {who}!\")
}

#[cfg(test)]
mod tests {
    use super::greet;

    #[test]
    fn greets_by_name() {
        assert_eq!(greet(\"world\"), \"Hello, world!\");
    }
}
"@);
        lemma_render_template(LIB_RS@, seq!["//! Library crate for `"@, "{{name}}"@, "`.

/// Returns a friendly greeting for `who`.
#[must_use]
pub fn greet(who: &str) -> String {
    format!(\"Hello, {who}!\")
}

#[cfg(test)]
mod tests {
    use super::greet;

    #[test]
    fn greets_by_name() {
        assert_eq!(greet(\"world\"), \"Hello, world!\");
    }
}
"@], name);
        assert(seq!["//! Library crate for `"@, "{{name}}"@, "`.

/// Returns a friendly greeting for `who`.
#[must_use]
pub fn greet(who: &str) -> String {
    format!(\"Hello, {who}!\")
}

#[cfg(test)]
mod tests {
    use super::greet;

    #[test]
    fn greets_by_name() {
        assert_eq!(greet(\"world\"), \"Hello, world!\");
    }
}
"@].map_values(|q: Seq<char>| fill_both(q, name)) =~= seq!["//! Library crate for `"@, name, "`.

/// Returns a friendly greeting for `who`.
#[must_use]
pub fn greet(who: &str) -> String {
    format!(\"Hello, {who}!\")
}

#[cfg(test)]
mod tests {
    use super::greet;

    #[test]
    fn greets_by_name() {
        assert_eq!(greet(\"world\"), \"Hello, world!\");
    }
}
"@]);
        lemma_flatten3("//! Library crate for `"@, name, "`.

/// Returns a friendly greeting for `who`.
#[must_use]
pub fn greet(who: &str) -> String {
    format!(\"Hello, {who}!\")
}

#[cfg(test)]
mod tests {
    use super::greet;

    #[test]
    fn greets_by_name() {
        assert_eq!(greet(\"world\"), \"Hello, world!\");
    }
}
"@);
    }
    assert(no_double_brace(render(INTEGRATION_RS@, name)) && render(INTEGRATION_RS@, name) == "//! Integration tests exercise `"@ + name + "` through its public API only.

#[test]
fn library_is_reachable_from_integration_tests() {
    assert_eq!("@ + crate_ident(name) + "::greet(\"integration\"), \"Hello, integration!\");
}
"@) by {
        reveal_strlit("//! Integration tests exercise `{{name}}` through its public API only.

#[test]
fn library_is_reachable_from_integration_tests() {
    assert_eq!({{crate}}::greet(\"integration\"), \"Hello, integration!\");
}
");
        reveal_strlit("//! Integration tests exercise `");
        reveal_strlit("` through its public API only.

#[test]
fn library_is_reachable_from_integration_tests() {
    assert_eq!(");
        reveal_strlit("::greet(\"integration\"), \"Hello, integration!\");
}
");
        reveal_strlit("{{crate}}");
        reveal_strlit("{{name}}");
        lemma_flatten5("//! Integration tests exercise `"@, "{{name}}"@, "` through its public API only.

#[test]
fn library_is_reachable_from_integration_tests() {
    assert_eq!("@, "{{crate}}"@, "::greet(\"integration\"), \"Hello, integration!\");
}
"@);
        assert(INTEGRATION_RS@ =~= "//! Integration tests exercise `"@ + "{{name}}"@ + "` through its public API only.

#[test]
fn library_is_reachable_from_integration_tests() {
    assert_eq!("@ + "{{crate}}"@ + "::greet(\"integration\"), \"Hello, integration!\");
}
"@);
        lemma_render_template(INTEGRATION_RS@, seq!["//! Integration tests exercise `"@, "{{name}}"@, "` through its public API only.

#[test]
fn library_is_reachable_from_integration_tests() {
    assert_eq!("@, "{{crate}}"@, "::greet(\"integration\"), \"Hello, integration!\");
}
"@], name);
        assert(seq!["//! Integration tests exercise `"@, "{{name}}"@, "` through its public API only.

#[test]
fn library_is_reachable_from_integration_tests() {
    assert_eq!("@, "{{crate}}"@, "::greet(\"integration\"), \"Hello, integration!\");
}
"@].map_values(|q: Seq<char>| fill_both(q, name)) =~= seq!["//! Integration tests exercise `"@, name, "` through its public API only.

#[test]
fn library_is_reachable_from_integration_tests() {
    assert_eq!("@, crate_ident(name), "::greet(\"integration\"), \"Hello, integration!\");
}
"@]);
        lemma_flatten5("//! Integration tests exercise `"@, name, "` through its public API only.

#[test]
fn library_is_reachable_from_integration_tests() {
    assert_eq!("@, crate_ident(name), "::greet(\"integration\"), \"Hello, integration!\");
}
"@);
    }
    assert(no_double_brace(render(EXAMPLE_RS@, name)) && render(EXAMPLE_RS@, name) == "//! Run with `cargo run --example hello`.

fn main() {
    println!(\"{}\", "@ + crate_ident(name) + "::greet(\"example\"));
}
"@) by {
        reveal_strlit("//! Run with `cargo run --example hello`.

fn main() {
    println!(\"{}\", {{crate}}::greet(\"example\"));
}
");
        reveal_strlit("//! Run with `cargo run --example hello`.

fn main() {
    println!(\"{}\", ");
        reveal_strlit("::greet(\"example\"));
}
");
        reveal_strlit("{{crate}}");
        reveal_strlit("{{name}}");
        lemma_flatten3("//! Run with `cargo run --example hello`.

fn main() {
    println!(\"{}\", "@, "{{crate}}"@, "::greet(\"example\"));
}
"@);
        assert(EXAMPLE_RS@ =~= "//! Run with `cargo run --example hello`.

fn main() {
    println!(\"{}\", "@ + "{{crate}}"@ + "::greet(\"example\"));
}
"@);
        lemma_render_template(EXAMPLE_RS@, seq!["//! Run with `cargo run --example hello`.

fn main() {
    println!(\"{}\", "@, "{{crate}}"@, "::greet(\"example\"));
}
"@], name);
        assert(seq!["//! Run with `cargo run --example hello`.

fn main() {
    println!(\"{}\", "@, "{{crate}}"@, "::greet(\"example\"));
}
"@].map_values(|q: Seq<char>| fill_both(q, name)) =~= seq!["//! Run with `cargo run --example hello`.

fn main() {
    println!(\"{}\", "@, crate_ident(name), "::greet(\"example\"));
}
"@]);
        lemma_flatten3("//! Run with `cargo run --example hello`.

fn main() {
    println!(\"{}\", "@, crate_ident(name), "::greet(\"example\"));
}
"@);
    }
    assert(no_double_brace(GITIGNORE@)) by {
        reveal_strlit("/target\n**/*.rs.bk\n");
        let g = GITIGNORE@;
        assert(forall|k: int| 0 <= k < g.len() - 1 ==> !(#[trigger] g[k] == '{' && g[k + 1] == '{'));
    }
    assert forall|j: int| 0 <= j < template_pairs(name).len() implies no_double_brace(
        #[trigger] template_pairs(name)[j].1,
    ) by {
        if j == 0 {
            assert(template_pairs(name)[0].1 == GITIGNORE@);
        }
    }
    let tp = template_pairs(name);
    let r = insert_all(Seq::<EntryView>::empty(), tp);
    lemma_insert_all(Seq::<EntryView>::empty(), tp);
    lemma_entries_map_sorted(r);
    lemma_entries_map_values(tp);
    assert(entries_map(Seq::<EntryView>::empty()).union_prefer_right(entries_map(tp)) =~= entries_map(tp));
    assert forall|j: int| 0 <= j < r.len() implies no_double_brace((#[trigger] r[j]).1) by {
        let x = r[j].0;
        assert(entries_map(r).contains_key(x) && entries_map(r)[x] == r[j].1);
        let k = choose|k: int| 0 <= k < tp.len() && tp[k].0 == x && tp[k].1 == entries_map(tp)[x];
        assert(no_double_brace(tp[k].1));
    }
}


// ---------------------------------------------------------------------------
// Planning a run.

/// The files of a run before placeholders: the templates, then the
/// configured files, which replace templates of the same path.
pub open spec fn merged_files(files: Seq<EntryView>, name: Seq<char>) -> Seq<EntryView> {
    insert_all(insert_all(Seq::<EntryView>::empty(), template_pairs(name)), files)
}

/// The directory a file path implies: its parent, unless it has none or the
/// parent is empty.
pub open spec fn implied_dir(key: Seq<char>) -> Seq<Seq<char>> {
    match parent_spec(key) {
        Some(q) => if components(q).len() > 0 {
            seq![q]
        } else {
            seq![]
        },
        None => seq![],
    }
}

/// The directories implied by a sequence of file paths, in order.
pub open spec fn implied_dirs(keys: Seq<Seq<char>>) -> Seq<Seq<char>>
    decreases keys.len(),
{
    if keys.len() == 0 {
        seq![]
    } else {
        implied_dirs(keys.drop_last()) + implied_dir(keys.last())
    }
}

/// The directories of a run: the configured ones collected into an ordered
/// set of paths (of equal ones, the last stays), then every parent implied by
/// a file path inserted into it (a parent equal to a directory already there
/// is not added).
pub open spec fn planned_dirs(dirs: Seq<Seq<char>>, files: Seq<EntryView>) -> Seq<Seq<char>> {
    dir_insert_all(dir_collect(dirs), implied_dirs(keys_of(files)))
}

/// The first path of `s` that is not a plain relative path, if any.
pub open spec fn first_unsafe(s: Seq<Seq<char>>) -> Option<Seq<char>>
    decreases s.len(),
{
    if s.len() == 0 {
        None
    } else if !is_safe_relative_spec(s[0]) {
        Some(s[0])
    } else {
        first_unsafe(s.drop_first())
    }
}

/// Some file path lies inside directory `d`, component-wise.
pub open spec fn has_content(d: Seq<char>, keys: Seq<Seq<char>>) -> bool {
    exists|i: int| 0 <= i < keys.len() && starts_with_spec(keys[i], d)
}

/// An empty `.gitkeep` for every directory, in order, that no file path lies in.
pub open spec fn placeholders(ds: Seq<Seq<char>>, keys: Seq<Seq<char>>) -> Seq<EntryView>
    decreases ds.len(),
{
    if ds.len() == 0 {
        seq![]
    } else {
        placeholders(ds.drop_last(), keys) + if has_content(ds.last(), keys) {
            Seq::<EntryView>::empty()
        } else {
            seq![(join_spec(ds.last(), ".gitkeep"@), Seq::<char>::empty())]
        }
    }
}

/// What a run creates.
#[derive(Debug)]
pub struct Plan {
    /// The package name.
    pub name: String,
    /// Directories to create, relative to the root, ordered as paths.
    pub dirs: Vec<String>,
    /// Files to write, relative to the root.
    pub files: FileMap,
}

proof fn lemma_implied_dirs_step(keys: Seq<Seq<char>>, j: int)
    requires
        0 <= j < keys.len(),
    ensures
        implied_dirs(keys.take(j + 1)) == implied_dirs(keys.take(j)) + implied_dir(keys[j]),
{
    assert(keys.take(j + 1).drop_last() =~= keys.take(j));
}

proof fn lemma_dir_folds_push(ds: Seq<Seq<char>>, c: Seq<Seq<char>>, x: Seq<char>)
    ensures
        dir_collect(c.push(x)) == dir_replace(dir_collect(c), x),
        dir_insert_all(ds, c.push(x)) == dir_insert(dir_insert_all(ds, c), x),
{
    assert(c.push(x).drop_last() =~= c);
}

proof fn lemma_first_unsafe_skip(s: Seq<Seq<char>>, i: int)
    requires
        0 <= i < s.len(),
        is_safe_relative_spec(s[i]),
    ensures
        first_unsafe(s.skip(i)) == first_unsafe(s.skip(i + 1)),
{
    assert(s.skip(i)[0] == s[i]);
    assert(s.skip(i).drop_first() =~= s.skip(i + 1));
}

/// Whether some file path in `keys` lies inside the directory with components `dir`.
fn content_in(
    dir: &Vec<Component>,
    keys: &Vec<Vec<Component>>,
    ghost_keys: Ghost<Seq<Seq<char>>>,
    ghost_dir: Ghost<Seq<char>>,
) -> (res: bool)
    requires
        keys@.len() == ghost_keys@.len(),
        comps_view(dir@) == components(ghost_dir@),
        forall|m: int| 0 <= m < keys@.len() ==> comps_view((#[trigger] keys@[m])@) == components(ghost_keys@[m]),
    ensures
        res == has_content(ghost_dir@, ghost_keys@),
{
    let mut m: usize = 0;
    while m < keys.len()
        invariant
            m <= keys@.len(),
            keys@.len() == ghost_keys@.len(),
            comps_view(dir@) == components(ghost_dir@),
            forall|q: int| 0 <= q < keys@.len() ==> comps_view((#[trigger] keys@[q])@) == components(ghost_keys@[q]),
            forall|q: int| 0 <= q < m ==> !starts_with_spec(#[trigger] ghost_keys@[q], ghost_dir@),
        decreases keys.len() - m,
    {
        assert(comps_view(keys@[m as int]@) == components(ghost_keys@[m as int]));
        if components_prefix(dir, &keys[m]) {
            assert(starts_with_spec(ghost_keys@[m as int], ghost_dir@));
            return true;
        }
        m = m + 1;
    }
    false
}

/// The views of a sequence of character vectors.
pub open spec fn chars_view(v: Seq<Vec<char>>) -> Seq<Seq<char>> {
    v.map_values(|c: Vec<char>| c@)
}

/// The configured directories and the parents implied by the file paths, as
/// an ordered set; also the file paths and their components.
fn collect_dirs(user_dirs: &Vec<String>, entries: &Vec<(String, String)>) -> (res: (
    DirSet,
    Vec<Vec<char>>,
    Vec<Vec<Component>>,
))
    ensures
        res.0@ == planned_dirs(strings_view(user_dirs@), pairs_view(entries@)),
        chars_view(res.1@) == keys_of(pairs_view(entries@)),
        res.2@.len() == res.1@.len(),
        forall|q: int|
            0 <= q < res.2@.len() ==> comps_view((#[trigger] res.2@[q])@) == components(
                keys_of(pairs_view(entries@))[q],
            ),
{
    let ghost user = strings_view(user_dirs@);
    let mut dirs = DirSet::new();
    let mut i: usize = 0;
    assert(user.take(0) =~= Seq::<Seq<char>>::empty());
    while i < user_dirs.len()
        invariant
            i <= user_dirs@.len(),
            user == strings_view(user_dirs@),
            dirs@ == dir_collect(user.take(i as int)),
        decreases user_dirs.len() - i,
    {
        let d = chars_of(user_dirs[i].as_str());
        proof {
            lemma_dir_folds_push(Seq::empty(), user.take(i as int), d@);
            assert(user.take(i + 1) =~= user.take(i as int).push(d@));
        }
        dirs.insert(d, false);
        i = i + 1;
    }
    assert(user.take(user_dirs.len() as int) =~= user);
    let ghost keys = keys_of(pairs_view(entries@));
    let mut key_chars: Vec<Vec<char>> = Vec::new();
    let mut key_comps: Vec<Vec<Component>> = Vec::new();
    let mut j: usize = 0;
    let ghost collected = dir_collect(user);
    assert(implied_dirs(keys.take(0)) =~= Seq::<Seq<char>>::empty());
    while j < entries.len()
        invariant
            j <= entries@.len(),
            keys == keys_of(pairs_view(entries@)),
            user == strings_view(user_dirs@),
            collected == dir_collect(user),
            dirs@ == dir_insert_all(collected, implied_dirs(keys.take(j as int))),
            chars_view(key_chars@) == keys.take(j as int),
            key_comps@.len() == j,
            forall|q: int|
                0 <= q < j ==> comps_view((#[trigger] key_comps@[q])@) == components(keys[q]),
        decreases entries.len() - j,
    {
        let k = chars_of(entries[j].0.as_str());
        assert(k@ == keys[j as int]);
        proof {
            lemma_implied_dirs_step(keys, j as int);
        }
        match parent(&k) {
            Some(q) => {
                let cq = components_of(&q);
                if cq.len() > 0 {
                    proof {
                        lemma_dir_folds_push(collected, implied_dirs(keys.take(j as int)), q@);
                        assert(implied_dirs(keys.take(j + 1)) =~= implied_dirs(keys.take(j as int)).push(q@));
                    }
                    dirs.insert(q, true);
                } else {
                    assert(implied_dirs(keys.take(j + 1)) =~= implied_dirs(keys.take(j as int)));
                }
            },
            None => {
                assert(implied_dirs(keys.take(j + 1)) =~= implied_dirs(keys.take(j as int)));
            },
        }
        key_comps.push(components_of(&k));
        key_chars.push(k);
        assert(chars_view(key_chars@) =~= keys.take(j + 1));
        j = j + 1;
    }
    assert(keys.take(entries.len() as int) =~= keys);
    (dirs, key_chars, key_comps)
}

/// The first directory, or else the first file path, that is not a plain
/// relative path.
fn find_unsafe(dirs: &DirSet, keys: &Vec<Vec<char>>) -> (res: Option<String>)
    ensures
        match first_unsafe(dirs@ + chars_view(keys@)) {
            Some(bad) => res matches Some(x) && x@ == bad,
            None => res is None,
        },
{
    let ghost ds = dirs@;
    let ghost ks = chars_view(keys@);
    let ghost all = ds + ks;
    let mut d: usize = 0;
    assert(all.skip(0) =~= all);
    while d < dirs.len()
        invariant
            d <= ds.len(),
            dirs@ == ds,
            ks == chars_view(keys@),
            all == ds + ks,
            first_unsafe(all) == first_unsafe(all.skip(d as int)),
        decreases ds.len() - d,
    {
        if !safe_relative_chars(dirs.path(d)) {
            assert(all.skip(d as int)[0] == ds[d as int]);
            assert(first_unsafe(all.skip(d as int)) == Some(ds[d as int]));
            return Some(string_from(dirs.path(d)));
        }
        proof {
            assert(all[d as int] == ds[d as int]);
            lemma_first_unsafe_skip(all, d as int);
        }
        d = d + 1;
    }
    let mut f: usize = 0;
    while f < keys.len()
        invariant
            f <= keys@.len(),
            ks == chars_view(keys@),
            dirs@ == ds,
            all == ds + ks,
            first_unsafe(all) == first_unsafe(all.skip(ds.len() + f)),
        decreases keys.len() - f,
    {
        assert(all[ds.len() + f] == keys@[f as int]@);
        if !safe_relative_chars(&keys[f]) {
            assert(all.skip(ds.len() + f)[0] == keys@[f as int]@);
            assert(first_unsafe(all.skip(ds.len() + f)) == Some(keys@[f as int]@));
            return Some(string_from(&keys[f]));
        }
        proof {
            lemma_first_unsafe_skip(all, ds.len() + f);
        }
        f = f + 1;
    }
    assert(all.skip(all.len() as int) =~= Seq::<Seq<char>>::empty());
    None
}

/// An empty `.gitkeep` entry for each directory that no file path lies in.
fn placeholder_pairs(
    dirs: &DirSet,
    key_comps: &Vec<Vec<Component>>,
    keys: Ghost<Seq<Seq<char>>>,
) -> (res: Vec<(String, String)>)
    requires
        key_comps@.len() == keys@.len(),
        forall|q: int|
            0 <= q < keys@.len() ==> comps_view((#[trigger] key_comps@[q])@) == components(keys@[q]),
    ensures
        pairs_view(res@) == placeholders(dirs@, keys@),
{
    let ghost ds = dirs@;
    let gitkeep = chars_of(".gitkeep");
    let mut pls: Vec<(String, String)> = Vec::new();
    let mut e: usize = 0;
    assert(ds.take(0) =~= Seq::<Seq<char>>::empty());
    while e < dirs.len()
        invariant
            e <= ds.len(),
            dirs@ == ds,
            gitkeep@ == ".gitkeep"@,
            key_comps@.len() == keys@.len(),
            forall|q: int|
                0 <= q < keys@.len() ==> comps_view((#[trigger] key_comps@[q])@) == components(
                    keys@[q],
                ),
            pairs_view(pls@) == placeholders(ds.take(e as int), keys@),
        decreases ds.len() - e,
    {
        assert(ds.take(e + 1).drop_last() =~= ds.take(e as int));
        assert(ds.take(e + 1).last() == ds[e as int]);
        let ghost before = pairs_view(pls@);
        if !content_in(dirs.path_components(e), key_comps, keys, Ghost(ds[e as int])) {
            let key = string_from(&join(dirs.path(e), &gitkeep));
            pls.push((key, String::new()));
            assert(pairs_view(pls@) =~= before + seq![
                (join_spec(ds[e as int], ".gitkeep"@), Seq::<char>::empty()),
            ]);
        } else {
            assert(pairs_view(pls@) =~= before + Seq::<EntryView>::empty());
        }
        e = e + 1;
    }
    assert(ds.take(ds.len() as int) =~= ds);
    pls
}

/// Inserts pairs into a map, one after the other.
fn insert_pairs(files: &mut FileMap, pairs: &Vec<(String, String)>)
    ensures
        final(files)@ == insert_all(old(files)@, pairs_view(pairs@)),
{
    let ghost pv = pairs_view(pairs@);
    let mut t: usize = 0;
    assert(pv.take(0) =~= Seq::<EntryView>::empty());
    while t < pairs.len()
        invariant
            t <= pairs@.len(),
            pv == pairs_view(pairs@),
            files@ == insert_all(old(files)@, pv.take(t as int)),
        decreases pairs.len() - t,
    {
        assert(pv.take(t + 1).drop_last() =~= pv.take(t as int));
        assert(pv.take(t + 1).last() == pv[t as int]);
        files.insert(pairs[t].0.clone(), pairs[t].1.clone());
        t = t + 1;
    }
    assert(pv.take(pairs.len() as int) =~= pv);
}

/// The paths of a directory set, as strings.
fn dir_strings(dirs: &DirSet) -> (res: Vec<String>)
    ensures
        strings_view(res@) == dirs@,
{
    let ghost ds = dirs@;
    let mut out: Vec<String> = Vec::new();
    let mut g: usize = 0;
    while g < dirs.len()
        invariant
            g <= ds.len(),
            dirs@ == ds,
            strings_view(out@) == ds.take(g as int),
        decreases ds.len() - g,
    {
        let ghost before = strings_view(out@);
        let s = string_from(dirs.path(g));
        let ghost sv = s@;
        out.push(s);
        assert(strings_view(out@) =~= before.push(sv));
        assert(ds.take(g + 1) =~= ds.take(g as int).push(ds[g as int]));
        g = g + 1;
    }
    assert(ds.take(ds.len() as int) =~= ds);
    out
}

/// Works out what a run creates.
///
/// Refuses a root that already exists ([`Error::RootExists`]), a root with no
/// usable name when none was given ([`Error::UnnamedRoot`]), and any
/// directory or file path that is not a plain relative path
/// ([`Error::UnsafePath`], for the first one in order: directories, then
/// files). Every directory that no file lies in gets an empty `.gitkeep`, so
/// that it survives a first commit.
pub fn plan(opts: &ScaffoldOptions, root_exists: bool) -> (res: Result<Plan, Error>)
    ensures
        root_exists ==> (res matches Err(Error::RootExists(r)) && r@ == opts.root@),
        !root_exists ==> match package_name_spec(opts.root@, opt_view(opts.name)) {
            None => res matches Err(Error::UnnamedRoot(r)) && r@ == opts.root@,
            Some(n) => {
                let merged = merged_files(opts.files@, n);
                let ds = planned_dirs(strings_view(opts.dirs@), merged);
                match first_unsafe(ds + keys_of(merged)) {
                    Some(bad) => res matches Err(Error::UnsafePath(x)) && x@ == bad,
                    None => res matches Ok(p) && p.name@ == n && strings_view(p.dirs@) == ds
                        && p.files@ == insert_all(merged, placeholders(ds, keys_of(merged))),
                }
            },
        },
{
    if root_exists {
        return Err(Error::RootExists(opts.root.clone()));
    }
    let name = match opts.package_name() {
        Ok(n) => n,
        Err(e) => return Err(e),
    };
    let mut files = template_files(name.as_str());
    files.extend(&opts.files);
    let ghost merged = files@;
    let (dirs, key_chars, key_comps) = collect_dirs(&opts.dirs, files.entries());
    let ghost keys = keys_of(merged);
    if let Some(bad) = find_unsafe(&dirs, &key_chars) {
        return Err(Error::UnsafePath(bad));
    }
    let pls = placeholder_pairs(&dirs, &key_comps, Ghost(keys));
    insert_pairs(&mut files, &pls);
    Ok(Plan { name, dirs: dir_strings(&dirs), files })
}

// ---------------------------------------------------------------------------
// Laws of a plan.

/// The first unsafe path is an unsafe path of the sequence; there is none
/// exactly when every path is a plain relative path.
pub proof fn lemma_first_unsafe(s: Seq<Seq<char>>)
    ensures
        first_unsafe(s) is None <==> forall|i: int|
            0 <= i < s.len() ==> is_safe_relative_spec(#[trigger] s[i]),
        first_unsafe(s) matches Some(x) ==> s.contains(x) && !is_safe_relative_spec(x),
    decreases s.len(),
{
    if s.len() > 0 {
        let t = s.drop_first();
        lemma_first_unsafe(t);
        if is_safe_relative_spec(s[0]) {
            assert forall|i: int| 0 <= i < t.len() && (forall|i: int|
                0 <= i < s.len() ==> is_safe_relative_spec(#[trigger] s[i]))
                implies is_safe_relative_spec(#[trigger] t[i]) by {
                assert(t[i] == s[i + 1]);
            }
            if first_unsafe(t) is None {
                assert forall|i: int| 0 <= i < s.len() implies is_safe_relative_spec(#[trigger] s[i]) by {
                    if i > 0 {
                        assert(s[i] == t[i - 1]);
                    }
                }
            }
            if let Some(x) = first_unsafe(t) {
                let i = choose|i: int| 0 <= i < t.len() && t[i] == x;
                assert(s[i + 1] == x);
            }
        } else {
            assert(s.contains(s[0]));
        }
    }
}

/// The configured files are layered on top of the templates: a configured
/// path replaces the template of the same path, and the entries stay sorted.
pub proof fn lemma_merged_files(files: Seq<EntryView>, name: Seq<char>)
    ensures
        keys_sorted(merged_files(files, name)),
        entries_map(merged_files(files, name)) == entries_map(template_pairs(name)).union_prefer_right(
            entries_map(files),
        ),
{
    let empty = Seq::<EntryView>::empty();
    lemma_insert_all(empty, template_pairs(name));
    let t = insert_all(empty, template_pairs(name));
    lemma_insert_all(t, files);
    assert(entries_map(empty) =~= Map::<Seq<char>, Seq<char>>::empty());
    assert(entries_map(empty).union_prefer_right(entries_map(template_pairs(name))) =~= entries_map(
        template_pairs(name),
    ));
}

/// The planned directories are ordered, with no two equal as paths; every
/// configured directory, and the parent of every file that has one, is
/// among them; and they hold nothing else.
pub proof fn lemma_planned_dirs(dirs: Seq<Seq<char>>, files: Seq<EntryView>)
    ensures
        paths_sorted(planned_dirs(dirs, files)),
        forall|k: int|
            0 <= k < dirs.len() ==> exists|i: int|
                0 <= i < planned_dirs(dirs, files).len() && path_eq(
                    #[trigger] planned_dirs(dirs, files)[i],
                    #[trigger] dirs[k],
                ),
        forall|k: int|
            0 <= k < files.len() && implied_dir(#[trigger] files[k].0).len() == 1 ==> exists|i: int|
                0 <= i < planned_dirs(dirs, files).len() && path_eq(
                    #[trigger] planned_dirs(dirs, files)[i],
                    implied_dir(files[k].0)[0],
                ) && starts_with_spec(files[k].0, planned_dirs(dirs, files)[i]),
        forall|x: Seq<char>|
            #[trigger] planned_dirs(dirs, files).contains(x) ==> dirs.contains(x) || implied_dirs(
                keys_of(files),
            ).contains(x),
{
    let keys = keys_of(files);
    let imp = implied_dirs(keys);
    let u = dir_collect(dirs);
    lemma_dir_collect(dirs);
    lemma_dir_insert_all(u, imp);
    let ds = planned_dirs(dirs, files);
    assert forall|k: int| 0 <= k < dirs.len() implies exists|i: int|
        0 <= i < ds.len() && path_eq(#[trigger] ds[i], #[trigger] dirs[k]) by {
        let m = choose|m: int| 0 <= m < u.len() && path_eq(#[trigger] u[m], dirs[k]);
        assert(u.contains(u[m]));
        assert(ds.contains(u[m]));
        let i = choose|i: int| 0 <= i < ds.len() && ds[i] == u[m];
        assert(path_eq(ds[i], dirs[k]));
    }
    assert forall|k: int|
        0 <= k < files.len() && implied_dir(#[trigger] files[k].0).len() == 1 implies exists|i: int|
        0 <= i < ds.len() && path_eq(#[trigger] ds[i], implied_dir(files[k].0)[0])
            && starts_with_spec(files[k].0, ds[i]) by {
        assert(keys[k] == files[k].0);
        lemma_implied_dirs_contains(keys, k);
        let q = implied_dir(files[k].0)[0];
        lemma_parent_components(files[k].0);
        assert(components(q) == components(files[k].0).drop_last());
        let m = choose|m: int| 0 <= m < imp.len() && imp[m] == q;
        let i = choose|i: int| 0 <= i < ds.len() && path_eq(#[trigger] ds[i], imp[m]);
        assert(components(files[k].0).take(components(ds[i]).len() as int) =~= components(ds[i]));
    }
    assert forall|x: Seq<char>| #[trigger] ds.contains(x) implies dirs.contains(x) || implied_dirs(
        keys,
    ).contains(x) by {
        if u.contains(x) {
            assert(dirs.contains(x));
        }
    }
}

proof fn lemma_collect_holds_all(d: Seq<Seq<char>>)
    requires
        forall|x: Seq<char>, y: Seq<char>|
            d.contains(x) && d.contains(y) && path_eq(x, y) ==> x == y,
    ensures
        paths_sorted(dir_collect(d)),
        forall|x: Seq<char>| #[trigger] dir_collect(d).contains(x) <==> d.contains(x),
{
    lemma_dir_collect(d);
    let u = dir_collect(d);
    assert forall|x: Seq<char>| #[trigger] u.contains(x) <==> d.contains(x) by {
        if d.contains(x) {
            let k = choose|k: int| 0 <= k < d.len() && d[k] == x;
            let m = choose|m: int| 0 <= m < u.len() && path_eq(#[trigger] u[m], d[k]);
            assert(u.contains(u[m]));
            assert(d.contains(u[m]));
            assert(u[m] == x);
        }
    }
}

/// The configured directories enter a plan as a set: two lists that hold the
/// same paths, with no two different spellings of one path among them, give
/// the same planned directories, files and dry-run text, whatever their
/// order and repetitions.
pub proof fn lemma_dirs_as_set(
    d1: Seq<Seq<char>>,
    d2: Seq<Seq<char>>,
    files: Seq<EntryView>,
    name: Seq<char>,
    root: Seq<char>,
    git: bool,
)
    requires
        forall|x: Seq<char>| d1.contains(x) <==> d2.contains(x),
        forall|x: Seq<char>, y: Seq<char>|
            d1.contains(x) && d1.contains(y) && path_eq(x, y) ==> x == y,
    ensures
        ({
            let merged = merged_files(files, name);
            let ds1 = planned_dirs(d1, merged);
            let ds2 = planned_dirs(d2, merged);
            let fin1 = insert_all(merged, placeholders(ds1, keys_of(merged)));
            let fin2 = insert_all(merged, placeholders(ds2, keys_of(merged)));
            &&& ds1 == ds2
            &&& fin1 == fin2
            &&& dry_run_text(root, name, ds1, keys_of(fin1), git) == dry_run_text(
                root,
                name,
                ds2,
                keys_of(fin2),
                git,
            )
        }),
{
    assert forall|x: Seq<char>, y: Seq<char>|
        d2.contains(x) && d2.contains(y) && path_eq(x, y) implies x == y by {
        assert(d1.contains(x) && d1.contains(y));
    }
    lemma_collect_holds_all(d1);
    lemma_collect_holds_all(d2);
    lemma_sorted_unique(dir_collect(d1), dir_collect(d2));
}

proof fn lemma_implied_dirs_contains(keys: Seq<Seq<char>>, k: int)
    requires
        0 <= k < keys.len(),
    ensures
        implied_dir(keys[k]).len() == 1 ==> implied_dirs(keys).contains(implied_dir(keys[k])[0]),
    decreases keys.len(),
{
    let t = keys.drop_last();
    let id = implied_dirs(keys);
    if k < keys.len() - 1 {
        assert(t[k] == keys[k]);
        lemma_implied_dirs_contains(t, k);
        if implied_dir(keys[k]).len() == 1 {
            let m = choose|m: int| 0 <= m < implied_dirs(t).len() && implied_dirs(t)[m] == implied_dir(
                keys[k],
            )[0];
            assert(id[m] == implied_dirs(t)[m]);
        }
    } else {
        if implied_dir(keys[k]).len() == 1 {
            assert(id[implied_dirs(t).len() as int] == implied_dir(keys[k])[0]);
        }
    }
}

/// Every placeholder is the `.gitkeep` of a planned directory that no file
/// lies in, and every such directory has its placeholder.
pub proof fn lemma_placeholders(ds: Seq<Seq<char>>, keys: Seq<Seq<char>>)
    ensures
        forall|j: int|
            0 <= j < placeholders(ds, keys).len() ==> exists|i: int|
                0 <= i < ds.len() && !has_content(ds[i], keys) && #[trigger] placeholders(ds, keys)[j]
                    == (join_spec(ds[i], ".gitkeep"@), Seq::<char>::empty()),
        forall|i: int|
            0 <= i < ds.len() && !has_content(#[trigger] ds[i], keys) ==> placeholders(
                ds,
                keys,
            ).contains((join_spec(ds[i], ".gitkeep"@), Seq::<char>::empty())),
    decreases ds.len(),
{
    if ds.len() > 0 {
        let t = ds.drop_last();
        lemma_placeholders(t, keys);
        let pt = placeholders(t, keys);
        let ps = placeholders(ds, keys);
        assert forall|j: int| 0 <= j < ps.len() implies exists|i: int|
            0 <= i < ds.len() && !has_content(ds[i], keys) && #[trigger] ps[j] == (
                join_spec(ds[i], ".gitkeep"@),
                Seq::<char>::empty(),
            ) by {
            if j < pt.len() {
                assert(ps[j] == pt[j]);
                let i = choose|i: int|
                    0 <= i < t.len() && !has_content(t[i], keys) && #[trigger] pt[j] == (
                        join_spec(t[i], ".gitkeep"@),
                        Seq::<char>::empty(),
                    );
                assert(ds[i] == t[i]);
            } else {
                assert(ds[ds.len() - 1] == ds.last());
            }
        }
        assert forall|i: int| 0 <= i < ds.len() && !has_content(#[trigger] ds[i], keys) implies ps.contains(
            (join_spec(ds[i], ".gitkeep"@), Seq::<char>::empty()),
        ) by {
            if i < t.len() {
                assert(t[i] == ds[i]);
                let j = choose|j: int| 0 <= j < pt.len() && pt[j] == (
                    join_spec(t[i], ".gitkeep"@),
                    Seq::<char>::empty(),
                );
                assert(ps[j] == pt[j]);
            } else {
                assert(ps[pt.len() as int] == (join_spec(ds[i], ".gitkeep"@), Seq::<char>::empty()));
            }
        }
    }
}

/// In a plan that passed the safety check: every planned directory and every
/// file path is a plain relative path inside the root; placeholders never
/// replace a file; and every planned directory holds at least one file, so
/// none is lost on a first commit.
pub proof fn lemma_plan_files(dirs: Seq<Seq<char>>, files: Seq<EntryView>, name: Seq<char>)
    requires
        first_unsafe(
            planned_dirs(dirs, merged_files(files, name)) + keys_of(merged_files(files, name)),
        ) is None,
    ensures
        ({
            let merged = merged_files(files, name);
            let ds = planned_dirs(dirs, merged);
            let fin = insert_all(merged, placeholders(ds, keys_of(merged)));
            &&& keys_sorted(fin)
            &&& forall|i: int| 0 <= i < ds.len() ==> is_safe_relative_spec(#[trigger] ds[i])
            &&& forall|x: Seq<char>|
                #[trigger] entries_map(fin).contains_key(x) ==> is_safe_relative_spec(x)
            &&& forall|x: Seq<char>|
                #[trigger] entries_map(merged).contains_key(x) ==> entries_map(fin).contains_key(x)
                    && entries_map(fin)[x] == entries_map(merged)[x]
            &&& forall|i: int|
                0 <= i < ds.len() ==> exists|x: Seq<char>|
                    entries_map(fin).contains_key(x) && starts_with_spec(x, #[trigger] ds[i])
            &&& forall|root: Seq<char>, i: int|
                0 <= i < ds.len() ==> starts_with_spec(#[trigger] join_spec(root, ds[i]), root)
                    && components(join_spec(root, ds[i])).len() > components(root).len()
            &&& forall|root: Seq<char>, x: Seq<char>|
                #[trigger] entries_map(fin).contains_key(x) ==> starts_with_spec(
                    #[trigger] join_spec(root, x),
                    root,
                ) && components(join_spec(root, x)).len() > components(root).len()
        }),
{
    reveal_strlit(".gitkeep");
    let g = ".gitkeep"@;
    let merged = merged_files(files, name);
    let keys = keys_of(merged);
    let ds = planned_dirs(dirs, merged);
    let all = ds + keys;
    let pls = placeholders(ds, keys);
    let fin = insert_all(merged, pls);
    lemma_merged_files(files, name);
    lemma_insert_all(merged, pls);
    lemma_first_unsafe(all);
    lemma_entries_map_sorted(merged);
    lemma_entries_map_keys(pls);
    lemma_placeholders(ds, keys);
    assert forall|i: int| 0 <= i < ds.len() implies is_safe_relative_spec(#[trigger] ds[i]) by {
        assert(all[i] == ds[i]);
    }
    assert forall|m: int| 0 <= m < keys.len() implies is_safe_relative_spec(#[trigger] keys[m]) by {
        assert(all[ds.len() + m] == keys[m]);
    }
    // A placeholder key lies inside its directory, and is plain.
    assert forall|j: int| 0 <= j < pls.len() implies is_safe_relative_spec(#[trigger] pls[j].0)
        && !entries_map(merged).contains_key(pls[j].0) by {
        let i = choose|i: int|
            0 <= i < ds.len() && !has_content(ds[i], keys) && #[trigger] pls[j] == (
                join_spec(ds[i], ".gitkeep"@),
                Seq::<char>::empty(),
            );
        assert(is_safe_relative_spec(ds[i]));
        lemma_join_name(ds[i], g);
        if entries_map(merged).contains_key(pls[j].0) {
            let m = choose|m: int| 0 <= m < merged.len() && merged[m].0 == pls[j].0;
            assert(keys[m] == pls[j].0);
            assert(has_content(ds[i], keys));
        }
    }
    assert forall|x: Seq<char>| #[trigger] entries_map(fin).contains_key(x) implies is_safe_relative_spec(x) by {
        if entries_map(pls).contains_key(x) {
            let j = choose|j: int| 0 <= j < pls.len() && pls[j].0 == x;
        } else {
            let m = choose|m: int| 0 <= m < merged.len() && merged[m].0 == x;
            assert(keys[m] == x);
        }
    }
    assert forall|x: Seq<char>| #[trigger] entries_map(merged).contains_key(x) implies entries_map(
        fin,
    ).contains_key(x) && entries_map(fin)[x] == entries_map(merged)[x] by {
        if entries_map(pls).contains_key(x) {
            let j = choose|j: int| 0 <= j < pls.len() && pls[j].0 == x;
        }
    }
    assert forall|root: Seq<char>, i: int| 0 <= i < ds.len() implies starts_with_spec(
        #[trigger] join_spec(root, ds[i]),
        root,
    ) && components(join_spec(root, ds[i])).len() > components(root).len() by {
        lemma_join_components(root, ds[i]);
    }
    assert forall|root: Seq<char>, x: Seq<char>| #[trigger] entries_map(fin).contains_key(x) implies starts_with_spec(
        #[trigger] join_spec(root, x),
        root,
    ) && components(join_spec(root, x)).len() > components(root).len() by {
        lemma_join_components(root, x);
    }
    assert forall|i: int| 0 <= i < ds.len() implies exists|x: Seq<char>|
        entries_map(fin).contains_key(x) && starts_with_spec(x, #[trigger] ds[i]) by {
        if has_content(ds[i], keys) {
            let m = choose|m: int| 0 <= m < keys.len() && starts_with_spec(keys[m], ds[i]);
            assert(entries_map(merged).contains_key(merged[m].0));
            assert(entries_map(fin).contains_key(keys[m]));
        } else {
            lemma_join_name(ds[i], g);
            let e = (join_spec(ds[i], ".gitkeep"@), Seq::<char>::empty());
            let j = choose|j: int| 0 <= j < pls.len() && pls[j] == e;
            assert(entries_map(pls).contains_key(pls[j].0));
            assert(entries_map(fin).contains_key(e.0));
        }
    }
}

/// Every implied directory is the non-empty parent of one of the paths.
proof fn lemma_implied_dirs_origin(keys: Seq<Seq<char>>)
    ensures
        forall|x: Seq<char>|
            #[trigger] implied_dirs(keys).contains(x) ==> components(x).len() > 0 && exists|k: int|
                0 <= k < keys.len() && parent_spec(keys[k]) == Some(x),
    decreases keys.len(),
{
    if keys.len() > 0 {
        let t = keys.drop_last();
        lemma_implied_dirs_origin(t);
        assert forall|x: Seq<char>| #[trigger] implied_dirs(keys).contains(x) implies components(x).len()
            > 0 && exists|k: int| 0 <= k < keys.len() && parent_spec(keys[k]) == Some(x) by {
            let m = choose|m: int| 0 <= m < implied_dirs(keys).len() && implied_dirs(keys)[m] == x;
            if m < implied_dirs(t).len() {
                assert(implied_dirs(t)[m] == x);
                assert(implied_dirs(t).contains(x));
                let k = choose|k: int| 0 <= k < t.len() && parent_spec(t[k]) == Some(x);
                assert(keys[k] == t[k]);
            } else {
                assert(implied_dir(keys.last())[m - implied_dirs(t).len()] == x);
                assert(parent_spec(keys[keys.len() - 1]) == Some(x));
            }
        }
    }
}

/// Every file path whose parent is not empty has that parent planned: some
/// planned directory is equal, as a path, to the parent; and every planned
/// directory is a configured one or the non-empty parent of a file path.
pub proof fn lemma_planned_dirs_hold_parents(dirs: Seq<Seq<char>>, files: Seq<EntryView>)
    ensures
        forall|k: int|
            0 <= k < files.len() ==> match parent_spec((#[trigger] files[k]).0) {
                Some(q) => components(q).len() > 0 ==> exists|i: int|
                    0 <= i < planned_dirs(dirs, files).len() && path_eq(planned_dirs(dirs, files)[i], q),
                None => true,
            },
        forall|x: Seq<char>|
            #[trigger] planned_dirs(dirs, files).contains(x) ==> dirs.contains(x) || (components(x).len()
                > 0 && exists|k: int| 0 <= k < files.len() && parent_spec(files[k].0) == Some(x)),
{
    lemma_planned_dirs(dirs, files);
    lemma_implied_dirs_origin(keys_of(files));
    assert forall|x: Seq<char>| #[trigger] planned_dirs(dirs, files).contains(x) implies dirs.contains(x)
        || (components(x).len() > 0 && exists|k: int|
        0 <= k < files.len() && parent_spec(files[k].0) == Some(x)) by {
        if !dirs.contains(x) {
            assert(implied_dirs(keys_of(files)).contains(x));
            let k = choose|k: int| 0 <= k < keys_of(files).len() && parent_spec(keys_of(files)[k]) == Some(x);
            assert(keys_of(files)[k] == files[k].0);
        }
    }
    assert forall|k: int| 0 <= k < files.len() implies match parent_spec((#[trigger] files[k]).0) {
        Some(q) => components(q).len() > 0 ==> exists|i: int|
            0 <= i < planned_dirs(dirs, files).len() && path_eq(planned_dirs(dirs, files)[i], q),
        None => true,
    } by {
        if let Some(q) = parent_spec(files[k].0) {
            if components(q).len() > 0 {
                assert(implied_dir(files[k].0) == seq![q]);
                assert(implied_dir(files[k].0)[0] == q);
            }
        }
    }
}

/// In a plan that passed the safety check, the final files are the merged
/// ones plus an empty `.gitkeep` in exactly those planned directories that
/// no merged file path lies in, at any depth (component-wise).
#[verifier::rlimit(40)]
pub proof fn lemma_plan_gitkeeps(dirs: Seq<Seq<char>>, files: Seq<EntryView>, name: Seq<char>)
    requires
        first_unsafe(
            planned_dirs(dirs, merged_files(files, name)) + keys_of(merged_files(files, name)),
        ) is None,
    ensures
        ({
            let merged = merged_files(files, name);
            let ds = planned_dirs(dirs, merged);
            let fin = entries_map(insert_all(merged, placeholders(ds, keys_of(merged))));
            &&& forall|x: Seq<char>|
                #[trigger] fin.contains_key(x) <==> entries_map(merged).contains_key(x) || exists|i: int|
                    0 <= i < ds.len() && x == join_spec(ds[i], ".gitkeep"@) && forall|m: int|
                        0 <= m < merged.len() ==> !starts_with_spec(#[trigger] merged[m].0, ds[i])
            &&& forall|x: Seq<char>|
                #[trigger] fin.contains_key(x) ==> fin[x] == if entries_map(merged).contains_key(x) {
                    entries_map(merged)[x]
                } else {
                    Seq::<char>::empty()
                }
        }),
{
    let merged = merged_files(files, name);
    let keys = keys_of(merged);
    let ds = planned_dirs(dirs, merged);
    let pls = placeholders(ds, keys);
    let fin = entries_map(insert_all(merged, pls));
    lemma_plan_files(dirs, files, name);
    lemma_merged_files(files, name);
    lemma_insert_all(merged, pls);
    lemma_entries_map_keys(pls);
    lemma_entries_map_values(pls);
    lemma_placeholders(ds, keys);
    assert forall|x: Seq<char>| #[trigger] fin.contains_key(x) implies entries_map(merged).contains_key(x)
        || exists|i: int|
        0 <= i < ds.len() && x == join_spec(ds[i], ".gitkeep"@) && forall|m: int|
            0 <= m < merged.len() ==> !starts_with_spec(#[trigger] merged[m].0, ds[i]) by {
        if !entries_map(merged).contains_key(x) {
            assert(entries_map(pls).contains_key(x));
            let j = choose|j: int| 0 <= j < pls.len() && pls[j].0 == x;
            let i = choose|i: int|
                0 <= i < ds.len() && !has_content(ds[i], keys) && #[trigger] pls[j] == (
                    join_spec(ds[i], ".gitkeep"@),
                    Seq::<char>::empty(),
                );
            assert forall|m: int| 0 <= m < merged.len() implies !starts_with_spec(
                #[trigger] merged[m].0,
                ds[i],
            ) by {
                assert(keys[m] == merged[m].0);
            }
        }
    }
    assert forall|x: Seq<char>|
        entries_map(merged).contains_key(x) || exists|i: int|
            0 <= i < ds.len() && x == join_spec(ds[i], ".gitkeep"@) && forall|m: int|
                0 <= m < merged.len() ==> !starts_with_spec(#[trigger] merged[m].0, ds[i])
        implies #[trigger] fin.contains_key(x) by {
        if !entries_map(merged).contains_key(x) {
            let i = choose|i: int|
                0 <= i < ds.len() && x == join_spec(ds[i], ".gitkeep"@) && forall|m: int|
                    0 <= m < merged.len() ==> !starts_with_spec(#[trigger] merged[m].0, ds[i]);
            if has_content(ds[i], keys) {
                let m = choose|m: int| 0 <= m < keys.len() && starts_with_spec(keys[m], ds[i]);
                assert(keys[m] == merged[m].0);
                assert(!starts_with_spec(merged[m].0, ds[i]));
            }
            assert(pls.contains((join_spec(ds[i], ".gitkeep"@), Seq::<char>::empty())));
            let j = choose|j: int| 0 <= j < pls.len() && pls[j] == (
                join_spec(ds[i], ".gitkeep"@),
                Seq::<char>::empty(),
            );
            assert(entries_map(pls).contains_key(pls[j].0));
        }
    }
    assert forall|x: Seq<char>| #[trigger] fin.contains_key(x) implies fin[x] == if entries_map(
        merged,
    ).contains_key(x) {
        entries_map(merged)[x]
    } else {
        Seq::<char>::empty()
    } by {
        if !entries_map(merged).contains_key(x) {
            assert(entries_map(pls).contains_key(x));
            let j = choose|j: int|
                0 <= j < pls.len() && pls[j].0 == x && pls[j].1 == entries_map(pls)[x];
            let i = choose|i: int|
                0 <= i < ds.len() && !has_content(ds[i], keys) && #[trigger] pls[j] == (
                    join_spec(ds[i], ".gitkeep"@),
                    Seq::<char>::empty(),
                );
        }
    }
}

// ---------------------------------------------------------------------------
// Commands and the dry-run report.

/// Words joined with single spaces (`[&str]::join(" ")`).
pub open spec fn join_words(ws: Seq<Seq<char>>) -> Seq<char>
    decreases ws.len(),
{
    if ws.len() == 0 {
        seq![]
    } else if ws.len() == 1 {
        ws[0]
    } else {
        join_words(ws.drop_last()) + " "@ + ws.last()
    }
}

/// The arguments of the `cargo` run that writes `Cargo.toml`.
pub open spec fn init_args_spec(name: Seq<char>) -> Seq<Seq<char>> {
    seq!["init"@, "--name"@, name, "--vcs"@, "none"@]
}

/// A command line as shown to the user: the program, a space, and its
/// arguments joined with spaces.
pub open spec fn command_line_spec(program: Seq<char>, args: Seq<Seq<char>>) -> Seq<char> {
    program + " "@ + join_words(args)
}

/// Joins strings with single spaces.
pub fn join_with_spaces(args: &Vec<String>) -> (res: String)
    ensures
        res@ == join_words(strings_view(args@)),
{
    let ghost ws = strings_view(args@);
    let mut out: Vec<char> = Vec::new();
    let mut i: usize = 0;
    assert(ws.take(0) =~= Seq::<Seq<char>>::empty());
    while i < args.len()
        invariant
            i <= args@.len(),
            ws == strings_view(args@),
            out@ == join_words(ws.take(i as int)),
        decreases args.len() - i,
    {
        assert(ws.take(i + 1).drop_last() =~= ws.take(i as int));
        assert(ws.take(i + 1).last() == args@[i as int]@);
        if i > 0 {
            append_str(&mut out, " ");
        } else {
            assert(ws.take(1) =~= seq![ws[0]]);
            assert(out@ =~= Seq::<char>::empty());
        }
        append_str(&mut out, args[i].as_str());
        assert(out@ =~= join_words(ws.take(i + 1)));
        i = i + 1;
    }
    assert(ws.take(args.len() as int) =~= ws);
    string_from(&out)
}

/// The command line shown for `program` run with `args`.
pub fn command_line(program: &str, args: &Vec<String>) -> (res: String)
    ensures
        res@ == command_line_spec(program@, strings_view(args@)),
{
    let mut out: Vec<char> = Vec::new();
    append_str(&mut out, program);
    append_str(&mut out, " ");
    let joined = join_with_spaces(args);
    append_str(&mut out, joined.as_str());
    string_from(&out)
}

impl Plan {
    /// Arguments for `cargo`: `init --name <name> --vcs none`.
    pub fn init_args(&self) -> (res: Vec<String>)
        ensures
            strings_view(res@) == init_args_spec(self.name@),
    {
        let mut v: Vec<String> = Vec::new();
        v.push("init".to_owned());
        v.push("--name".to_owned());
        v.push(self.name.clone());
        v.push("--vcs".to_owned());
        v.push("none".to_owned());
        assert(strings_view(v@) =~= init_args_spec(self.name@));
        v
    }
}

/// One listing line per directory: two spaces, the directory under the
/// root, a slash.
pub open spec fn dir_lines(root: Seq<char>, ds: Seq<Seq<char>>) -> Seq<char>
    decreases ds.len(),
{
    if ds.len() == 0 {
        seq![]
    } else {
        dir_lines(root, ds.drop_last()) + "  "@ + join_spec(root, ds.last()) + "/\n"@
    }
}

/// One listing line per file: two spaces and the file under the root.
pub open spec fn file_lines(root: Seq<char>, keys: Seq<Seq<char>>) -> Seq<char>
    decreases keys.len(),
{
    if keys.len() == 0 {
        seq![]
    } else {
        file_lines(root, keys.drop_last()) + "  "@ + join_spec(root, keys.last()) + "\n"@
    }
}

/// The text of a dry run.
pub open spec fn dry_run_text(
    root: Seq<char>,
    name: Seq<char>,
    ds: Seq<Seq<char>>,
    keys: Seq<Seq<char>>,
    git: bool,
) -> Seq<char> {
    "[dry-run] project root : "@ + root + "\n"@ + "[dry-run] package name : "@ + name + "\n"@
        + "[dry-run] directories  :\n"@ + dir_lines(root, ds) + "[dry-run] files        :\n"@
        + file_lines(root, keys) + "[dry-run] would run    : cargo "@ + join_words(
        init_args_spec(name),
    ) + "\n"@ + if git {
        "[dry-run] would run    : git init\n"@
    } else {
        Seq::<char>::empty()
    }
}

/// The directory listing is one line per directory, in order: the listing
/// of two runs of directories is the one listing after the other, and a
/// single directory is listed as two spaces, its path under the root and a
/// slash. The file listing is the same without the slash.
pub proof fn lemma_listing_lines(root: Seq<char>, a: Seq<Seq<char>>, b: Seq<Seq<char>>, x: Seq<char>)
    ensures
        dir_lines(root, a + b) == dir_lines(root, a) + dir_lines(root, b),
        file_lines(root, a + b) == file_lines(root, a) + file_lines(root, b),
        dir_lines(root, seq![x]) == "  "@ + join_spec(root, x) + "/\n"@,
        file_lines(root, seq![x]) == "  "@ + join_spec(root, x) + "\n"@,
    decreases b.len(),
{
    assert(seq![x].drop_last() =~= Seq::<Seq<char>>::empty());
    assert(seq![x].last() == x);
    assert(dir_lines(root, Seq::<Seq<char>>::empty()) == Seq::<char>::empty());
    assert(file_lines(root, Seq::<Seq<char>>::empty()) == Seq::<char>::empty());
    assert(dir_lines(root, seq![x]) == dir_lines(root, Seq::<Seq<char>>::empty()) + "  "@ + join_spec(
        root,
        x,
    ) + "/\n"@);
    assert(file_lines(root, seq![x]) == file_lines(root, Seq::<Seq<char>>::empty()) + "  "@
        + join_spec(root, x) + "\n"@);
    assert(dir_lines(root, seq![x]) =~= "  "@ + join_spec(root, x) + "/\n"@);
    assert(file_lines(root, seq![x]) =~= "  "@ + join_spec(root, x) + "\n"@);
    if b.len() == 0 {
        assert(a + b =~= a);
        assert(dir_lines(root, a) + dir_lines(root, b) =~= dir_lines(root, a));
        assert(file_lines(root, a) + file_lines(root, b) =~= file_lines(root, a));
    } else {
        lemma_listing_lines(root, a, b.drop_last(), x);
        assert((a + b).drop_last() =~= a + b.drop_last());
        assert((a + b).last() == b.last());
        assert(dir_lines(root, a + b) =~= dir_lines(root, a) + dir_lines(root, b));
        assert(file_lines(root, a + b) =~= file_lines(root, a) + file_lines(root, b));
    }
}

/// The commands a dry run lists are those the run performs: the text ends
/// with the command line of the run's `cargo` step, and asking for git
/// adds exactly one line at the end, the command line of the run's `git`
/// step, leaving everything before it (the `cargo` line included) as it is.
#[verifier::spinoff_prover]
#[verifier::rlimit(40)]
pub proof fn lemma_dry_run_commands(
    root: Seq<char>,
    name: Seq<char>,
    ds: Seq<Seq<char>>,
    keys: Seq<Seq<char>>,
    missing: Seq<Seq<char>>,
    dirs: Seq<Seq<char>>,
    files: Seq<EntryView>,
)
    ensures
        ({
            let acts = run_actions(missing, dirs, files, name, false);
            let at = missing.len() + 1 + dirs.len() + files.len() as int;
            &&& acts.len() == at + 1
            &&& acts[at] matches Action::Run(p, a) && exists|head: Seq<char>|
                dry_run_text(root, name, ds, keys, false) == head + "[dry-run] would run    : "@
                    + command_line_spec(p, a) + "\n"@
        }),
        ({
            let acts = run_actions(missing, dirs, files, name, true);
            let at = missing.len() + 1 + dirs.len() + files.len() as int;
            &&& acts.len() == at + 2
            &&& acts[at] == run_actions(missing, dirs, files, name, false)[at]
            &&& acts[at + 1] matches Action::Run(p, a) && dry_run_text(root, name, ds, keys, true)
                == dry_run_text(root, name, ds, keys, false) + "[dry-run] would run    : "@
                + command_line_spec(p, a) + "\n"@
        }),
{
    reveal_strlit("[dry-run] would run    : cargo ");
    reveal_strlit("[dry-run] would run    : ");
    reveal_strlit("[dry-run] would run    : git init\n");
    reveal_strlit("\n");
    reveal_strlit("cargo");
    reveal_strlit("git");
    reveal_strlit("init");
    reveal_strlit(" ");
    lemma_run_sequence(missing, dirs, files, name, false);
    lemma_run_sequence(missing, dirs, files, name, true);
    let m = missing.len() as int;
    let nd = dirs.len() as int;
    let nf = files.len() as int;
    let a0 = run_actions(missing, dirs, files, name, false);
    let a1 = run_actions(missing, dirs, files, name, true);
    assert(a0[m + 1 + nd + nf] == Action::Run("cargo"@, init_args_spec(name)));
    assert(a1[m + 1 + nd + nf] == Action::Run("cargo"@, init_args_spec(name)));
    assert(a1[m + 2 + nd + nf] == Action::Run("git"@, seq!["init"@]));
    let t0 = dry_run_text(root, name, ds, keys, false);
    let cargo_line = "[dry-run] would run    : cargo "@ + join_words(init_args_spec(name)) + "\n"@;
    let head = t0.take(t0.len() - cargo_line.len());
    assert("[dry-run] would run    : cargo "@ =~= "[dry-run] would run    : "@ + "cargo"@ + " "@);
    assert(cargo_line =~= "[dry-run] would run    : "@ + command_line_spec("cargo"@, init_args_spec(name))
        + "\n"@);
    assert(t0 =~= head + cargo_line);
    assert(t0 =~= head + "[dry-run] would run    : "@ + command_line_spec("cargo"@, init_args_spec(name))
        + "\n"@);
    assert(join_words(seq!["init"@]) == "init"@);
    assert("[dry-run] would run    : git init\n"@ =~= "[dry-run] would run    : "@ + command_line_spec(
        "git"@,
        seq!["init"@],
    ) + "\n"@);
    assert(dry_run_text(root, name, ds, keys, true) =~= t0 + "[dry-run] would run    : git init\n"@);
}

/// Describes what a run would do, without doing it: the root, the package
/// name, every directory and file under the root, and the commands.
pub fn dry_run_report(opts: &ScaffoldOptions, plan: &Plan) -> (res: String)
    ensures
        res@ == dry_run_text(opts.root@, plan.name@, strings_view(plan.dirs@), plan.files.keys(), opts.git),
{
    let root = chars_of(opts.root.as_str());
    let mut out: Vec<char> = Vec::new();
    append_str(&mut out, "[dry-run] project root : ");
    append_chars(&mut out, &root);
    append_str(&mut out, "\n");
    append_str(&mut out, "[dry-run] package name : ");
    append_str(&mut out, plan.name.as_str());
    append_str(&mut out, "\n");
    append_str(&mut out, "[dry-run] directories  :\n");
    let ghost ds = strings_view(plan.dirs@);
    let ghost head = out@;
    let mut i: usize = 0;
    assert(ds.take(0) =~= Seq::<Seq<char>>::empty());
    assert(out@ =~= head + dir_lines(root@, ds.take(0)));
    while i < plan.dirs.len()
        invariant
            i <= plan.dirs@.len(),
            ds == strings_view(plan.dirs@),
            out@ == head + dir_lines(root@, ds.take(i as int)),
        decreases plan.dirs.len() - i,
    {
        assert(ds.take(i + 1).drop_last() =~= ds.take(i as int));
        assert(ds.take(i + 1).last() == plan.dirs@[i as int]@);
        append_str(&mut out, "  ");
        let d = chars_of(plan.dirs[i].as_str());
        append_chars(&mut out, &join(&root, &d));
        append_str(&mut out, "/\n");
        assert(out@ =~= head + dir_lines(root@, ds.take(i + 1)));
        i = i + 1;
    }
    assert(ds.take(plan.dirs.len() as int) =~= ds);
    append_str(&mut out, "[dry-run] files        :\n");
    let entries = plan.files.entries();
    let ghost keys = plan.files.keys();
    let ghost mid = out@;
    let mut j: usize = 0;
    assert(keys.take(0) =~= Seq::<Seq<char>>::empty());
    assert(out@ =~= mid + file_lines(root@, keys.take(0)));
    while j < entries.len()
        invariant
            j <= entries@.len(),
            keys == keys_of(pairs_view(entries@)),
            out@ == mid + file_lines(root@, keys.take(j as int)),
        decreases entries.len() - j,
    {
        assert(keys.take(j + 1).drop_last() =~= keys.take(j as int));
        assert(keys.take(j + 1).last() == entries@[j as int].0@);
        append_str(&mut out, "  ");
        let k = chars_of(entries[j].0.as_str());
        append_chars(&mut out, &join(&root, &k));
        append_str(&mut out, "\n");
        assert(out@ =~= mid + file_lines(root@, keys.take(j + 1)));
        j = j + 1;
    }
    assert(keys.take(entries.len() as int) =~= keys);
    append_str(&mut out, "[dry-run] would run    : cargo ");
    let args = plan.init_args();
    let joined = join_with_spaces(&args);
    append_str(&mut out, joined.as_str());
    append_str(&mut out, "\n");
    if opts.git {
        append_str(&mut out, "[dry-run] would run    : git init\n");
    }
    assert(out@ =~= dry_run_text(opts.root@, plan.name@, ds, keys, opts.git));
    string_from(&out)
}


/// What a finished command amounts to: nothing when it succeeded, otherwise
/// [`Error::CommandFailed`] with its status and its standard output followed
/// by its standard error, trimmed.
pub fn command_outcome(
    command: String,
    success: bool,
    status: String,
    stdout: String,
    stderr: String,
) -> (res: Result<(), Error>)
    ensures
        success ==> res is Ok,
        !success ==> (res matches Err(Error::CommandFailed { command: c, status: s, output: o })
            && c@ == command@ && s@ == status@ && o@ == trim(stdout@ + stderr@)),
{
    if success {
        return Ok(());
    }
    let mut combined = chars_of(stdout.as_str());
    append_str(&mut combined, stderr.as_str());
    let output = string_from(&trim_chars(&combined));
    Err(Error::CommandFailed { command, status, output })
}

// ---------------------------------------------------------------------------
// Rollback.

/// Remembers a freshly created project root that must be removed again
/// unless the run completes: it starts armed, and only disarming it spares
/// the root.
pub struct RollbackGuard {
    root: String,
    armed: bool,
}

impl RollbackGuard {
    /// The root the guard watches.
    pub closed spec fn root_spec(&self) -> Seq<char> {
        self.root@
    }

    /// Whether the root is still to be removed.
    pub closed spec fn is_armed(&self) -> bool {
        self.armed
    }

    /// Starts watching `root`.
    pub fn arm(root: &str) -> (res: RollbackGuard)
        ensures
            res.is_armed(),
            res.root_spec() == root@,
    {
        RollbackGuard { root: root.to_owned(), armed: true }
    }

    /// The run completed: keep the root.
    pub fn disarm(&mut self)
        ensures
            !final(self).is_armed(),
            final(self).root_spec() == old(self).root_spec(),
    {
        self.armed = false;
    }

    /// The directory to remove when the guard goes away, if any.
    pub fn pending_removal(&self) -> (res: Option<&String>)
        ensures
            match res {
                Some(r) => self.is_armed() && r@ == self.root_spec(),
                None => !self.is_armed(),
            },
    {
        if self.armed {
            Some(&self.root)
        } else {
            None
        }
    }
}


// ---------------------------------------------------------------------------
// The run: what to do next.

/// One step of a run, as a mathematical value.
pub enum Action {
    /// Create a missing directory above the project root.
    CreateParent(Seq<char>),
    /// Create the project root.
    CreateRoot,
    /// Create a directory under the root.
    CreateDir(Seq<char>),
    /// Write a file under the root.
    WriteFile(Seq<char>, Seq<char>),
    /// Run a program inside the root.
    Run(Seq<char>, Seq<Seq<char>>),
    /// A step failed after something was created: remove the root if it was
    /// created, then these directories above it, in this order.
    Undo(bool, Seq<Seq<char>>),
    /// Every step succeeded.
    Finished,
    /// The very first step failed: there is nothing to clean up.
    Stop,
}

/// One step of a run.
pub enum Step {
    /// Create this missing directory above the project root.
    CreateParent(String),
    /// Create the project root.
    CreateRoot,
    /// Create this directory under the root.
    CreateDir(String),
    /// Write this file, with these contents, under the root.
    WriteFile(String, String),
    /// Run this program with these arguments inside the root.
    Run(String, Vec<String>),
    /// A step failed after something was created: remove the root when
    /// `root` is set, then each of `parents`, in order.
    Undo { root: bool, parents: Vec<String> },
    /// Every step succeeded.
    Finished,
    /// The very first step failed: there is nothing to clean up.
    Stop,
}

impl View for Step {
    type V = Action;

    open spec fn view(&self) -> Action {
        match self {
            Step::CreateParent(d) => Action::CreateParent(d@),
            Step::CreateRoot => Action::CreateRoot,
            Step::CreateDir(d) => Action::CreateDir(d@),
            Step::WriteFile(p, b) => Action::WriteFile(p@, b@),
            Step::Run(p, a) => Action::Run(p@, strings_view(a@)),
            Step::Undo { root, parents } => Action::Undo(*root, strings_view(parents@)),
            Step::Finished => Action::Finished,
            Step::Stop => Action::Stop,
        }
    }
}

/// The steps of a run, in order: each missing directory above the root,
/// outermost first, then the root, every directory, every file,
/// `cargo init`, and `git init` when asked for.
pub open spec fn run_actions(
    missing: Seq<Seq<char>>,
    dirs: Seq<Seq<char>>,
    files: Seq<EntryView>,
    name: Seq<char>,
    git: bool,
) -> Seq<Action> {
    missing.map_values(|d: Seq<char>| Action::CreateParent(d)) + seq![Action::CreateRoot]
        + dirs.map_values(|d: Seq<char>| Action::CreateDir(d)) + files.map_values(
        |e: EntryView| Action::WriteFile(e.0, e.1),
    ) + seq![Action::Run("cargo"@, init_args_spec(name))] + if git {
        seq![Action::Run("git"@, seq!["init"@])]
    } else {
        Seq::<Action>::empty()
    }
}

/// The first `made` of the missing directories, innermost first.
pub open spec fn made_parents(missing: Seq<Seq<char>>, made: int) -> Seq<Seq<char>> {
    Seq::new(made as nat, |k: int| missing[made - 1 - k])
}

/// The clean-up after `done` steps succeeded and the next one failed: the
/// root goes if it was created, then every missing directory above it that
/// was created, innermost first.
pub open spec fn undo_action(missing: Seq<Seq<char>>, done: int) -> Action {
    let m = missing.len() as int;
    Action::Undo(done > m, made_parents(missing, if done < m { done } else { m }))
}

/// What to do after `done` steps succeeded and the next one went as
/// `last_ok` says: the next step; undoing what was created once a later
/// step failed; stopping when the first step failed; finishing when every
/// step succeeded.
pub open spec fn next_action(
    missing: Seq<Seq<char>>,
    actions: Seq<Action>,
    done: int,
    last_ok: bool,
) -> Action {
    if !last_ok {
        if done == 0 {
            Action::Stop
        } else {
            undo_action(missing, done)
        }
    } else if done < actions.len() {
        actions[done]
    } else {
        Action::Finished
    }
}

/// The clean-up list: the first `made` of `missing`, innermost first.
fn made_parents_of(missing: &Vec<String>, made: usize) -> (res: Vec<String>)
    requires
        made <= missing.len(),
    ensures
        strings_view(res@) == made_parents(strings_view(missing@), made as int),
{
    let mut res: Vec<String> = Vec::new();
    let mut k: usize = made;
    while k > 0
        invariant
            k <= made <= missing.len(),
            strings_view(res@) == made_parents(strings_view(missing@), made as int).take(
                (made - k) as int,
            ),
        decreases k,
    {
        k = k - 1;
        let ghost before = res@;
        let d = missing[k].clone();
        res.push(d);
        assert(res@ == before.push(d));
        assert(strings_view(res@) =~= strings_view(before).push(d@));
        assert(made_parents(strings_view(missing@), made as int)[(made - k - 1) as int] == strings_view(
            missing@,
        )[k as int]);
        assert(strings_view(res@) =~= made_parents(strings_view(missing@), made as int).take(
            (made - k) as int,
        ));
    }
    assert(made_parents(strings_view(missing@), made as int).take(made as int) =~= made_parents(
        strings_view(missing@),
        made as int,
    ));
    res
}

/// The step of a run after `done` successful ones, `last_ok` telling whether
/// the step just tried succeeded. `missing` lists the directories above the
/// root that do not exist yet, outermost first.
pub fn next_step(plan: &Plan, missing: &Vec<String>, git: bool, done: usize, last_ok: bool) -> (res:
    Step)
    ensures
        res@ == next_action(
            strings_view(missing@),
            run_actions(strings_view(missing@), strings_view(plan.dirs@), plan.files@, plan.name@, git),
            done as int,
            last_ok,
        ),
{
    let ghost ms = strings_view(missing@);
    let ghost acts = run_actions(ms, strings_view(plan.dirs@), plan.files@, plan.name@, git);
    let ghost m = missing@.len() as int;
    let ghost nd = plan.dirs@.len() as int;
    let ghost nf = plan.files@.len() as int;
    let entries = plan.files.entries();
    assert(acts.len() == m + 1 + nd + nf + 1 + if git { 1int } else { 0int });
    if !last_ok {
        if done == 0 {
            return Step::Stop;
        }
        let made = if done < missing.len() { done } else { missing.len() };
        let parents = made_parents_of(missing, made);
        return Step::Undo { root: done > missing.len(), parents };
    }
    if done < missing.len() {
        assert(acts[done as int] == Action::CreateParent(ms[done as int]));
        return Step::CreateParent(missing[done].clone());
    }
    let k = done - missing.len();
    if k == 0 {
        assert(acts[done as int] == Action::CreateRoot);
        return Step::CreateRoot;
    }
    let k = k - 1;
    if k < plan.dirs.len() {
        assert(acts[done as int] == Action::CreateDir(plan.dirs@[k as int]@));
        return Step::CreateDir(plan.dirs[k].clone());
    }
    let k = k - plan.dirs.len();
    if k < entries.len() {
        assert(pairs_view(entries@)[k as int] == plan.files@[k as int]);
        assert(acts[done as int] == Action::WriteFile(plan.files@[k as int].0, plan.files@[k as int].1));
        return Step::WriteFile(entries[k].0.clone(), entries[k].1.clone());
    }
    let k = k - entries.len();
    if k == 0 {
        let args = plan.init_args();
        assert(acts[done as int] == Action::Run("cargo"@, init_args_spec(plan.name@)));
        return Step::Run("cargo".to_owned(), args);
    }
    if k == 1 && git {
        let mut args: Vec<String> = Vec::new();
        args.push("init".to_owned());
        assert(strings_view(args@) =~= seq!["init"@]);
        assert(acts[done as int] == Action::Run("git"@, seq!["init"@]));
        return Step::Run("git".to_owned(), args);
    }
    Step::Finished
}

/// A run does the planned steps in order and nothing else, and a failed run
/// undoes exactly what it created: it first creates each missing directory
/// above the root, outermost first, then the root, each directory, each
/// file, `cargo init`, and `git init` only when asked for. When the step
/// after `d` successful ones fails, it removes the root if the root was
/// created (`d` is past the missing directories), then each missing
/// directory it created, innermost first; when the first step fails it
/// stops, there being nothing to undo; a run in which every step succeeded
/// finishes and removes nothing.
pub proof fn lemma_run_sequence(
    missing: Seq<Seq<char>>,
    dirs: Seq<Seq<char>>,
    files: Seq<EntryView>,
    name: Seq<char>,
    git: bool,
)
    ensures
        ({
            let acts = run_actions(missing, dirs, files, name, git);
            let m = missing.len() as int;
            let nd = dirs.len() as int;
            let nf = files.len() as int;
            &&& acts.len() == m + nd + nf + 2 + if git { 1int } else { 0int }
            &&& forall|i: int| 0 <= i < m ==> next_action(missing, acts, i, true) == Action::CreateParent(
                #[trigger] missing[i],
            )
            &&& next_action(missing, acts, m, true) == Action::CreateRoot
            &&& forall|i: int|
                0 <= i < nd ==> next_action(missing, acts, m + 1 + i, true) == Action::CreateDir(
                    #[trigger] dirs[i],
                )
            &&& forall|i: int|
                0 <= i < nf ==> next_action(missing, acts, m + 1 + nd + i, true) == Action::WriteFile(
                    (#[trigger] files[i]).0,
                    files[i].1,
                )
            &&& next_action(missing, acts, m + 1 + nd + nf, true) == Action::Run(
                "cargo"@,
                init_args_spec(name),
            )
            &&& git ==> next_action(missing, acts, m + 2 + nd + nf, true) == Action::Run(
                "git"@,
                seq!["init"@],
            )
            &&& next_action(missing, acts, acts.len() as int, true) == Action::Finished
            &&& next_action(missing, acts, 0, false) == Action::Stop
            &&& forall|d: int|
                1 <= d <= m ==> #[trigger] next_action(missing, acts, d, false) == Action::Undo(
                    false,
                    made_parents(missing, d),
                )
            &&& forall|d: int|
                m < d ==> #[trigger] next_action(missing, acts, d, false) == Action::Undo(
                    true,
                    made_parents(missing, m),
                )
            &&& forall|d: int, k: int|
                0 <= k < d <= m ==> #[trigger] made_parents(missing, d)[k] == missing[d - 1 - k]
                    && made_parents(missing, d).len() == d
            &&& forall|d: int| 0 <= d ==> !(#[trigger] next_action(missing, acts, d, true) is Undo)
        }),
{
    let acts = run_actions(missing, dirs, files, name, git);
    let m = missing.len() as int;
    let nd = dirs.len() as int;
    let nf = files.len() as int;
    assert forall|i: int| 0 <= i < m implies next_action(missing, acts, i, true) == Action::CreateParent(
        #[trigger] missing[i],
    ) by {
        assert(acts[i] == Action::CreateParent(missing[i]));
    }
    assert(acts[m] == Action::CreateRoot);
    assert forall|i: int| 0 <= i < nd implies next_action(missing, acts, m + 1 + i, true)
        == Action::CreateDir(#[trigger] dirs[i]) by {
        assert(acts[m + 1 + i] == Action::CreateDir(dirs[i]));
    }
    assert forall|i: int| 0 <= i < nf implies next_action(missing, acts, m + 1 + nd + i, true)
        == Action::WriteFile((#[trigger] files[i]).0, files[i].1) by {
        assert(acts[m + 1 + nd + i] == Action::WriteFile(files[i].0, files[i].1));
    }
    assert(acts[m + 1 + nd + nf] == Action::Run("cargo"@, init_args_spec(name)));
    if git {
        assert(acts[m + 2 + nd + nf] == Action::Run("git"@, seq!["init"@]));
    }
    assert forall|d: int| 0 <= d implies !(#[trigger] next_action(missing, acts, d, true) is Undo) by {
        if d < acts.len() {
            if d < m {
                assert(acts[d] == Action::CreateParent(missing[d]));
            } else if d == m {
            } else if d < m + 1 + nd {
                assert(acts[d] == Action::CreateDir(dirs[d - m - 1]));
            } else if d < m + 1 + nd + nf {
                assert(acts[d] == Action::WriteFile(files[d - m - 1 - nd].0, files[d - m - 1 - nd].1));
            } else if d == m + 1 + nd + nf {
            } else {
                assert(acts[d] == Action::Run("git"@, seq!["init"@]));
            }
        }
    }
}

} // verus!
