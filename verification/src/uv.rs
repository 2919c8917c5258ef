//! The uv command that installs a tool in its own directory, and the commands
//! that an installation exports.
use crate::config::UvBackendConfig;
use crate::package::{ascii_lower, is_alnum_char, is_name_char, is_separator_char, name_result, normalize_name, text_order, lemma_text_order};
use crate::sorted::{insert_sorted, lemma_insert_at, lemma_insert_sorted, sorted_by, strict_order};
use crate::text::{
    debug_quote, debug_text, decimal, lemma_text_lt_total, push_char, push_decimal, text_less, text_lt, views,
};
use vstd::prelude::*;

verus! {

/// A command for the host to run: program, arguments, and environment
/// variables in the order they are set.
#[derive(Debug)]
pub struct InstallCommand {
    pub command: String,
    pub args: Vec<String>,
    pub env: Vec<(String, String)>,
    pub stream: bool,
}

/// The views of environment pairs.
pub open spec fn env_views(env: Seq<(String, String)>) -> Seq<(Seq<char>, Seq<char>)> {
    env.map_values(|p: (String, String)| (p.0@, p.1@))
}

/// The arguments of `uv tool install` for a pinned requirement.
pub open spec fn install_args(python: Seq<char>, package: Seq<char>, version: Seq<char>, force: bool) -> Seq<Seq<char>> {
    seq![
        "--no-config"@,
        "--no-progress"@,
        "tool"@,
        "install"@,
        "--managed-python"@,
        "--python"@,
        python,
        "--no-build"@,
        "--default-index"@,
        "https://pypi.org/simple"@,
        "--index-strategy"@,
        "first-index"@,
    ] + (if force {
        seq!["--reinstall"@]
    } else {
        Seq::empty()
    }) + seq!["--"@, package + "=="@ + version]
}

/// The directories of an installation, each under the install root.
pub open spec fn path_env(root: Seq<char>) -> Seq<(Seq<char>, Seq<char>)> {
    seq![
        ("UV_TOOL_DIR"@, root + "/tools"@),
        ("UV_TOOL_BIN_DIR"@, root + "/bin"@),
        ("UV_PYTHON_INSTALL_DIR"@, root + "/python"@),
        ("UV_CACHE_DIR"@, root + "/cache"@),
        ("UV_PYTHON_CACHE_DIR"@, root + "/cache/python"@),
        ("TMPDIR"@, root + "/tmp"@),
        ("TMP"@, root + "/tmp"@),
        ("TEMP"@, root + "/tmp"@),
    ]
}

/// Settings that keep uv from reading user configuration or other indexes.
pub open spec fn fixed_env() -> Seq<(Seq<char>, Seq<char>)> {
    seq![
        ("PROTO_UV_VERSION?"@, "*"@),
        ("UV_PYTHON_INSTALL_BIN"@, "0"@),
        ("UV_PYTHON_INSTALL_REGISTRY"@, "0"@),
        ("UV_NO_MODIFY_PATH"@, "1"@),
        ("UV_PYTHON_DOWNLOADS"@, "automatic"@),
        ("UV_LINK_MODE"@, "copy"@),
        ("UV_INDEX"@, ""@),
        ("UV_INDEX_URL"@, ""@),
        ("UV_EXTRA_INDEX_URL"@, ""@),
        ("UV_FIND_LINKS"@, ""@),
        ("UV_NO_INDEX"@, "false"@),
    ]
}

fn push_text(v: &mut Vec<String>, s: &str)
    ensures
        views(final(v)@) == views(old(v)@).push(s@),
{
    v.push(String::from_str(s));
    assert(views(v@) =~= views(old(v)@).push(s@));
}

fn push_env(env: &mut Vec<(String, String)>, key: &str, value: String)
    ensures
        env_views(final(env)@) == env_views(old(env)@).push((key@, value@)),
{
    env.push((String::from_str(key), value));
    assert(env_views(env@) =~= env_views(old(env)@).push((key@, value@)));
}

fn push_path_env(env: &mut Vec<(String, String)>, key: &str, root: &str, suffix: &str)
    ensures
        env_views(final(env)@) == env_views(old(env)@).push((key@, root@ + suffix@)),
{
    let mut value = String::from_str(root);
    value.append(suffix);
    push_env(env, key, value);
}

/// The isolated `uv tool install` of `package==version` under `root`.
pub fn install_command(root: &str, package: &str, version: &str, config: &UvBackendConfig, force: bool) -> (c: InstallCommand)
    ensures
        c.command@ == "uv"@,
        views(c.args@) == install_args(config.python@, package@, version@, force),
        env_views(c.env@) == path_env(root@) + fixed_env(),
        !c.stream,
{
    let mut args: Vec<String> = Vec::new();
    push_text(&mut args, "--no-config");
    push_text(&mut args, "--no-progress");
    push_text(&mut args, "tool");
    push_text(&mut args, "install");
    push_text(&mut args, "--managed-python");
    push_text(&mut args, "--python");
    let ghost a0 = views(args@);
    args.push(config.python.clone());
    assert(views(args@) =~= a0.push(config.python@));
    push_text(&mut args, "--no-build");
    push_text(&mut args, "--default-index");
    push_text(&mut args, "https://pypi.org/simple");
    push_text(&mut args, "--index-strategy");
    push_text(&mut args, "first-index");
    if force {
        push_text(&mut args, "--reinstall");
    }
    push_text(&mut args, "--");
    let mut pinned = String::from_str(package);
    pinned.append("==");
    pinned.append(version);
    let ghost a1 = views(args@);
    args.push(pinned);
    assert(views(args@) =~= a1.push(package@ + "=="@ + version@));
    assert(views(args@) =~= install_args(config.python@, package@, version@, force));
    let mut env: Vec<(String, String)> = Vec::new();
    push_path_env(&mut env, "UV_TOOL_DIR", root, "/tools");
    push_path_env(&mut env, "UV_TOOL_BIN_DIR", root, "/bin");
    push_path_env(&mut env, "UV_PYTHON_INSTALL_DIR", root, "/python");
    push_path_env(&mut env, "UV_CACHE_DIR", root, "/cache");
    push_path_env(&mut env, "UV_PYTHON_CACHE_DIR", root, "/cache/python");
    push_path_env(&mut env, "TMPDIR", root, "/tmp");
    push_path_env(&mut env, "TMP", root, "/tmp");
    push_path_env(&mut env, "TEMP", root, "/tmp");
    push_env(&mut env, "PROTO_UV_VERSION?", String::from_str("*"));
    push_env(&mut env, "UV_PYTHON_INSTALL_BIN", String::from_str("0"));
    push_env(&mut env, "UV_PYTHON_INSTALL_REGISTRY", String::from_str("0"));
    push_env(&mut env, "UV_NO_MODIFY_PATH", String::from_str("1"));
    push_env(&mut env, "UV_PYTHON_DOWNLOADS", String::from_str("automatic"));
    push_env(&mut env, "UV_LINK_MODE", String::from_str("copy"));
    push_env(&mut env, "UV_INDEX", String::from_str(""));
    push_env(&mut env, "UV_INDEX_URL", String::from_str(""));
    push_env(&mut env, "UV_EXTRA_INDEX_URL", String::from_str(""));
    push_env(&mut env, "UV_FIND_LINKS", String::from_str(""));
    push_env(&mut env, "UV_NO_INDEX", String::from_str("false"));
    assert(env_views(env@) =~= path_env(root@) + fixed_env());
    InstallCommand { command: String::from_str("uv"), args, env, stream: false }
}

/// Decimal text of an integer, with a leading `-` when it is negative.
pub open spec fn signed_decimal(i: int) -> Seq<char> {
    if i < 0 {
        seq!['-'] + decimal((-i) as nat)
    } else {
        decimal(i as nat)
    }
}

/// Whether an install succeeded, and the error that the host reports when not.
#[derive(Debug)]
pub struct InstallOutcome {
    pub installed: bool,
    pub error: Option<String>,
}

/// The error for a failed `uv tool install`.
pub open spec fn failure_message(exit_code: i32, stderr: Seq<char>, stdout: Seq<char>) -> Seq<char> {
    "uv tool install failed (exit "@ + signed_decimal(exit_code as int) + "):\n"@ + stderr + seq!['\n']
        + stdout
}

/// The outcome of an install from the exit code and output of uv.
pub fn install_outcome(exit_code: i32, stderr: &str, stdout: &str) -> (r: InstallOutcome)
    ensures
        r.installed == (exit_code == 0),
        exit_code == 0 ==> r.error is None,
        exit_code != 0 ==> (r.error matches Some(e) && e@ == failure_message(exit_code, stderr@, stdout@)),
{
    if exit_code == 0 {
        return InstallOutcome { installed: true, error: None };
    }
    let mut e = String::from_str("uv tool install failed (exit ");
    let ghost e0 = e@;
    if exit_code < 0 {
        push_char(&mut e, '-');
        let magnitude: u64 = (0i64 - (exit_code as i64)) as u64;
        push_decimal(&mut e, magnitude);
    } else {
        push_decimal(&mut e, exit_code as u64);
    }
    assert(e@ =~= e0 + signed_decimal(exit_code as int));
    e.append("):\n");
    e.append(stderr);
    push_char(&mut e, '\n');
    e.append(stdout);
    InstallOutcome { installed: false, error: Some(e) }
}


/// A file that is never a command: empty, holding a path separator, or hidden.
pub open spec fn skipped_file(f: Seq<char>) -> bool {
    f.len() == 0 || f.contains('/') || f.contains('\\') || f[0] == '.'
}

/// The index of the last `.` in `f`, if any.
pub open spec fn last_dot(f: Seq<char>) -> Option<int>
    decreases f.len(),
{
    if f.len() == 0 {
        None
    } else if f.last() == '.' {
        Some(f.len() - 1)
    } else {
        last_dot(f.drop_last())
    }
}

/// ASCII lowercase of each character.
pub open spec fn lower_text(e: Seq<char>) -> Seq<char> {
    e.map_values(|c: char| ascii_lower(c))
}

/// The extension of a Windows launcher, in any ASCII case.
pub open spec fn launcher_extension(e: Seq<char>) -> bool {
    lower_text(e) == "exe"@ || lower_text(e) == "cmd"@ || lower_text(e) == "bat"@
}

/// The command that an exported file provides, if any: the file name itself,
/// or on Windows the name of a launcher without its extension.
pub open spec fn command_name(f: Seq<char>, windows: bool) -> Option<Seq<char>> {
    if skipped_file(f) {
        None
    } else if windows {
        match last_dot(f) {
            None => None,
            Some(i) => if launcher_extension(f.skip(i + 1)) {
                Some(f.take(i))
            } else {
                None
            },
        }
    } else {
        Some(f)
    }
}

/// A command name that proto can register.
pub open spec fn valid_command(n: Seq<char>) -> bool {
    n.len() > 0 && forall|i: int| 0 <= i < n.len() ==> #[trigger] is_name_char(n[i])
}

/// Commands with their files, ordered by command name.
pub open spec fn entry_order() -> spec_fn((Seq<char>, Seq<char>), (Seq<char>, Seq<char>)) -> bool {
    |a: (Seq<char>, Seq<char>), b: (Seq<char>, Seq<char>)| text_lt(a.0, b.0)
}

/// Some entry has the command name `n`.
pub open spec fn has_name(entries: Seq<(Seq<char>, Seq<char>)>, n: Seq<char>) -> bool {
    exists|i: int| 0 <= i < entries.len() && #[trigger] entries[i].0 == n
}

pub open spec fn unsupported_message(f: Seq<char>) -> Seq<char> {
    "Unsupported executable name: "@ + debug_text(f)
}

pub open spec fn duplicate_message(n: Seq<char>) -> Seq<char> {
    "Multiple uv executables have the same command name: "@ + n
}

pub open spec fn no_commands_message(package: Seq<char>) -> Seq<char> {
    "The package "@ + package + " did not export any supported commands."@
}

/// The commands of the exported files, in order of name, or the error for the
/// first file that has an unsupported or repeated command name.
pub open spec fn collect_entries(files: Seq<Seq<char>>, windows: bool) -> Result<Seq<(Seq<char>, Seq<char>)>, Seq<char>>
    decreases files.len(),
{
    if files.len() == 0 {
        Ok(Seq::empty())
    } else {
        match collect_entries(files.drop_last(), windows) {
            Err(e) => Err(e),
            Ok(acc) => {
                let f = files.last();
                match command_name(f, windows) {
                    None => Ok(acc),
                    Some(n) => if !valid_command(n) {
                        Err(unsupported_message(f))
                    } else if has_name(acc, n) {
                        Err(duplicate_message(n))
                    } else {
                        Ok(insert_sorted(acc, (n, f), entry_order()))
                    },
                }
            },
        }
    }
}

/// The index of the first entry whose name normalizes to the package name.
pub open spec fn first_match(entries: Seq<(Seq<char>, Seq<char>)>, package: Seq<char>) -> Option<int>
    decreases entries.len(),
{
    if entries.len() == 0 {
        None
    } else {
        match first_match(entries.drop_last(), package) {
            Some(i) => Some(i),
            None => if name_result(entries.last().0) == Ok::<Seq<char>, Seq<char>>(package) {
                Some(entries.len() - 1)
            } else {
                None
            },
        }
    }
}

/// The primary command: the package's own command, else the first by name.
pub open spec fn primary_index(entries: Seq<(Seq<char>, Seq<char>)>, package: Seq<char>) -> int {
    match first_match(entries, package) {
        Some(i) => i,
        None => 0,
    }
}

/// A registered command: its name, its path under the installation, whether
/// it is the tool's primary command, and that proto makes no shim in `bin`.
#[derive(Debug)]
pub struct Executable {
    pub name: String,
    pub exe_path: String,
    pub primary: bool,
    pub no_bin: bool,
}

impl View for Executable {
    type V = (Seq<char>, Seq<char>, bool, bool);

    open spec fn view(&self) -> (Seq<char>, Seq<char>, bool, bool) {
        (self.name@, self.exe_path@, self.primary, self.no_bin)
    }
}

/// The commands of an installation, and the directory that holds them.
#[derive(Debug)]
pub struct ExecutableSet {
    pub exes: Vec<Executable>,
    pub exes_dirs: Vec<String>,
}

pub open spec fn exe_views(v: Seq<Executable>) -> Seq<(Seq<char>, Seq<char>, bool, bool)> {
    v.map_values(|e: Executable| e@)
}

/// The registered commands for sorted entries and the index of the primary one.
pub open spec fn registered(entries: Seq<(Seq<char>, Seq<char>)>, primary: int) -> Seq<(Seq<char>, Seq<char>, bool, bool)> {
    Seq::new(entries.len(), |i: int| (entries[i].0, "bin/"@ + entries[i].1, i == primary, true))
}

/// What `executable_config` gives: the registered commands and directories,
/// or the error.
pub open spec fn executables_of(package: Seq<char>, files: Seq<Seq<char>>, windows: bool) -> Result<(Seq<(Seq<char>, Seq<char>, bool, bool)>, Seq<Seq<char>>), Seq<char>> {
    match collect_entries(files, windows) {
        Err(e) => Err(e),
        Ok(entries) => if entries.len() == 0 {
            Err(no_commands_message(package))
        } else {
            Ok((registered(entries, primary_index(entries, package)), seq!["bin"@]))
        },
    }
}

fn contains_char(s: &str, c: char) -> (r: bool)
    ensures
        r == s@.contains(c),
{
    let n = s.unicode_len();
    let mut i: usize = 0;
    while i < n
        invariant
            n == s@.len(),
            i <= n,
            forall|k: int| 0 <= k < i ==> s@[k] != c,
        decreases n - i,
    {
        if s.get_char(i) == c {
            return true;
        }
        i = i + 1;
    }
    false
}

fn find_last_dot(s: &str) -> (r: Option<usize>)
    ensures
        match r {
            Some(i) => last_dot(s@) == Some(i as int) && i < s@.len() && s@[i as int] == '.',
            None => last_dot(s@) is None,
        },
{
    let mut k: usize = s.unicode_len();
    assert(s@.take(k as int) =~= s@);
    while k > 0
        invariant
            k <= s@.len(),
            last_dot(s@) == last_dot(s@.take(k as int)),
        decreases k,
    {
        assert(s@.take(k as int).drop_last() =~= s@.take(k - 1));
        if s.get_char(k - 1) == '.' {
            return Some(k - 1);
        }
        k = k - 1;
    }
    None
}

fn lowercase(s: &str) -> (r: String)
    ensures
        r@ == lower_text(s@),
{
    let n = s.unicode_len();
    let mut r = String::new();
    let mut i: usize = 0;
    while i < n
        invariant
            n == s@.len(),
            i <= n,
            r@ =~= lower_text(s@.take(i as int)),
        decreases n - i,
    {
        let c = s.get_char(i);
        let l = if 'A' <= c && c <= 'Z' {
            ((c as u8) + 32u8) as char
        } else {
            c
        };
        push_char(&mut r, l);
        i = i + 1;
        assert(lower_text(s@.take(i as int)) =~= lower_text(s@.take(i - 1)).push(l));
    }
    assert(s@.take(n as int) =~= s@);
    r
}

fn command_of<'a>(f: &'a str, windows: bool) -> (r: Option<&'a str>)
    ensures
        match r {
            Some(n) => command_name(f@, windows) == Some(n@),
            None => command_name(f@, windows) is None,
        },
{
    let n = f.unicode_len();
    if n == 0 || contains_char(f, '/') || contains_char(f, '\\') || f.get_char(0) == '.' {
        return None;
    }
    if !windows {
        return Some(f);
    }
    match find_last_dot(f) {
        None => None,
        Some(i) => {
            let ext = lowercase(f.substring_char(i + 1, n));
            assert(f@.subrange(i + 1, n as int) =~= f@.skip(i + 1));
            if ext == String::from_str("exe") || ext == String::from_str("cmd") || ext == String::from_str("bat") {
                let stem = f.substring_char(0, i);
                assert(f@.subrange(0, i as int) =~= f@.take(i as int));
                Some(stem)
            } else {
                None
            }
        },
    }
}

fn is_valid_command(s: &str) -> (r: bool)
    ensures
        r == valid_command(s@),
{
    let n = s.unicode_len();
    if n == 0 {
        return false;
    }
    let mut i: usize = 0;
    while i < n
        invariant
            n == s@.len(),
            i <= n,
            forall|k: int| 0 <= k < i ==> #[trigger] is_name_char(s@[k]),
        decreases n - i,
    {
        let c = s.get_char(i);
        if !is_alnum_char(c) && !is_separator_char(c) {
            assert(!is_name_char(s@[i as int]));
            return false;
        }
        i = i + 1;
    }
    true
}

pub proof fn lemma_entry_order()
    ensures
        strict_order(entry_order()),
{
    lemma_text_order();
    assert forall|a: (Seq<char>, Seq<char>)| !#[trigger] entry_order()(a, a) by {
        assert(!text_order()(a.0, a.0));
    }
    assert forall|a: (Seq<char>, Seq<char>), b: (Seq<char>, Seq<char>), c: (Seq<char>, Seq<char>)|
        #[trigger] entry_order()(a, b) && #[trigger] entry_order()(b, c) implies entry_order()(a, c) by {
        assert(text_order()(a.0, b.0) && text_order()(b.0, c.0));
    }
}

pub open spec fn entry_views(v: Seq<(String, String)>) -> Seq<(Seq<char>, Seq<char>)> {
    v.map_values(|p: (String, String)| (p.0@, p.1@))
}

/// Only inspect uv's dedicated exported bin directory, never a venv's bin.
pub fn executable_config(package: &str, files: Vec<String>, windows: bool) -> (r: Result<ExecutableSet, String>)
    ensures
        match r {
            Ok(o) => executables_of(package@, views(files@), windows) == Ok::<_, Seq<char>>(
                (exe_views(o.exes@), views(o.exes_dirs@)),
            ),
            Err(e) => executables_of(package@, views(files@), windows) == Err::<(Seq<(Seq<char>, Seq<char>, bool, bool)>, Seq<Seq<char>>), _>(e@),
        },
{
    proof {
        lemma_entry_order();
        lemma_text_order();
    }
    let ghost fs = views(files@);
    let mut entries: Vec<(String, String)> = Vec::new();
    let mut i: usize = 0;
    assert(entry_views(entries@) =~= Seq::<(Seq<char>, Seq<char>)>::empty());
    while i < files.len()
        invariant
            fs == views(files@),
            i <= files.len(),
            collect_entries(fs.take(i as int), windows) == Ok::<_, Seq<char>>(entry_views(entries@)),
            sorted_by(entry_views(entries@), entry_order()),
            strict_order(entry_order()),
            crate::sorted::total_order(text_order()),
        decreases files.len() - i,
    {
        assert(fs.take(i + 1).drop_last() =~= fs.take(i as int));
        assert(fs.take(i + 1).last() == fs[i as int]);
        let file = files[i].as_str();
        let ghost acc = entry_views(entries@);
        match command_of(file, windows) {
            None => {},
            Some(name) => {
                if !is_valid_command(name) {
                    let mut e = String::from_str("Unsupported executable name: ");
                    let q = debug_quote(file);
                    e.append(q.as_str());
                    proof { lemma_collect_error_stays(fs, windows, i as int + 1); }
                    return Err(e);
                }
                let mut j: usize = 0;
                while j < entries.len() && text_less(entries[j].0.as_str(), name)
                    invariant
                        acc == entry_views(entries@),
                        j <= entries.len(),
                        forall|k: int| 0 <= k < j ==> #[trigger] text_lt(acc[k].0, name@),
                    decreases entries.len() - j,
                {
                    j = j + 1;
                }
                let name_string = String::from_str(name);
                if j < entries.len() && entries[j].0 == name_string {
                    assert(acc[j as int].0 == name@);
                    assert(has_name(acc, name@));
                    let mut e = String::from_str("Multiple uv executables have the same command name: ");
                    e.append(name);
                    proof { lemma_collect_error_stays(fs, windows, i as int + 1); }
                    return Err(e);
                }
                proof {
                    let x = (name@, fs[i as int]);
                    if j < entries.len() {
                        lemma_text_lt_total(acc[j as int].0, name@);
                        assert(text_lt(name@, acc[j as int].0));
                    }
                    assert forall|k: int| 0 <= k < acc.len() implies #[trigger] acc[k].0 != name@ by {
                        if k < j {
                            crate::text::lemma_text_lt_irreflexive(name@);
                        } else {
                            if k > j {
                                assert(entry_order()(acc[j as int], acc[k]));
                                crate::text::lemma_text_lt_transitive(name@, acc[j as int].0, acc[k].0);
                            }
                            crate::text::lemma_text_lt_irreflexive(name@);
                        }
                    }
                    assert forall|k: int| 0 <= k < j implies #[trigger] entry_order()(acc[k], x) by {
                        assert(text_lt(acc[k].0, name@));
                    }
                    lemma_insert_at(acc, x, entry_order(), j as int);
                    lemma_insert_sorted(acc, x, entry_order());
                }
                entries.insert(j, (name_string, files[i].clone()));
                assert(entry_views(entries@) =~= acc.insert(j as int, (name@, fs[i as int])));
            },
        }
        i = i + 1;
    }
    assert(fs.take(files.len() as int) =~= fs);
    let ghost es = entry_views(entries@);
    if entries.len() == 0 {
        let mut e = String::from_str("The package ");
        e.append(package);
        e.append(" did not export any supported commands.");
        return Err(e);
    }
    let wanted = String::from_str(package);
    let mut primary: usize = 0;
    let mut k: usize = 0;
    assert(es.take(es.len() as int) =~= es);
    while k < entries.len()
        invariant_except_break
            first_match(es.take(k as int), package@) is None,
            primary == 0,
        invariant
            es == entry_views(entries@),
            es.take(es.len() as int) == es,
            wanted@ == package@,
            k <= entries.len(),
        ensures
            primary as int == primary_index(es, package@),
        decreases entries.len() - k,
    {
        assert(es.take(k + 1).drop_last() =~= es.take(k as int));
        assert(es.take(k + 1).last() == es[k as int]);
        let matches = match normalize_name(entries[k].0.as_str()) {
            Ok(n) => n == wanted,
            Err(_) => false,
        };
        if matches {
            primary = k;
            proof { lemma_first_match_prefix(es, package@, k as int + 1); }
            break;
        }
        k = k + 1;
    }
    let mut exes: Vec<Executable> = Vec::new();
    let mut m: usize = 0;
    while m < entries.len()
        invariant
            es == entry_views(entries@),
            m <= entries.len(),
            exe_views(exes@) =~= registered(es, primary as int).take(m as int),
        decreases entries.len() - m,
    {
        let mut path = String::from_str("bin/");
        path.append(entries[m].1.as_str());
        let ghost before = exe_views(exes@);
        exes.push(Executable { name: entries[m].0.clone(), exe_path: path, primary: m == primary, no_bin: true });
        assert(exe_views(exes@) =~= before.push(registered(es, primary as int)[m as int]));
        m = m + 1;
    }
    assert(registered(es, primary as int).take(entries.len() as int) =~= registered(es, primary as int));
    let mut exes_dirs: Vec<String> = Vec::new();
    exes_dirs.push(String::from_str("bin"));
    assert(views(exes_dirs@) =~= seq!["bin"@]);
    Ok(ExecutableSet { exes, exes_dirs })
}

/// An error in collecting a prefix of the files is the error for all of them.
pub proof fn lemma_collect_error_stays(files: Seq<Seq<char>>, windows: bool, n: int)
    requires
        0 <= n <= files.len(),
        collect_entries(files.take(n), windows) is Err,
    ensures
        collect_entries(files, windows) == collect_entries(files.take(n), windows),
    decreases files.len() - n,
{
    if n < files.len() {
        assert(files.take(n + 1).drop_last() =~= files.take(n));
        lemma_collect_error_stays(files, windows, n + 1);
    } else {
        assert(files.take(n) =~= files);
    }
}

/// A match found in a prefix is the first match in the whole sequence.
pub proof fn lemma_first_match_prefix(entries: Seq<(Seq<char>, Seq<char>)>, package: Seq<char>, n: int)
    requires
        0 <= n <= entries.len(),
        first_match(entries.take(n), package) is Some,
    ensures
        first_match(entries, package) == first_match(entries.take(n), package),
    decreases entries.len() - n,
{
    if n < entries.len() {
        assert(entries.take(n + 1).drop_last() =~= entries.take(n));
        lemma_first_match_prefix(entries, package, n + 1);
    } else {
        assert(entries.take(n) =~= entries);
    }
}


/// The value set for `key` first, if any.
pub open spec fn env_lookup(env: Seq<(Seq<char>, Seq<char>)>, key: Seq<char>) -> Option<Seq<char>>
    decreases env.len(),
{
    if env.len() == 0 {
        None
    } else {
        match env_lookup(env.drop_last(), key) {
            Some(v) => Some(v),
            None => if env.last().0 == key {
                Some(env.last().1)
            } else {
                None
            },
        }
    }
}

impl InstallCommand {
    /// The value of an environment variable of the command.
    pub fn env_value(&self, key: &str) -> (r: Option<String>)
        ensures
            match r {
                Some(v) => env_lookup(env_views(self.env@), key@) == Some(v@),
                None => env_lookup(env_views(self.env@), key@) is None,
            },
    {
        let ghost es = env_views(self.env@);
        let wanted = String::from_str(key);
        let mut i: usize = 0;
        while i < self.env.len()
            invariant
                es == env_views(self.env@),
                wanted@ == key@,
                i <= self.env.len(),
                env_lookup(es.take(i as int), key@) is None,
            decreases self.env.len() - i,
        {
            assert(es.take(i + 1).drop_last() =~= es.take(i as int));
            assert(es.take(i + 1).last() == es[i as int]);
            if self.env[i].0 == wanted {
                proof { lemma_env_lookup_prefix(es, key@, i as int + 1); }
                return Some(self.env[i].1.clone());
            }
            i = i + 1;
        }
        assert(es.take(self.env.len() as int) =~= es);
        None
    }
}

pub proof fn lemma_env_lookup_prefix(env: Seq<(Seq<char>, Seq<char>)>, key: Seq<char>, n: int)
    requires
        0 <= n <= env.len(),
        env_lookup(env.take(n), key) is Some,
    ensures
        env_lookup(env, key) == env_lookup(env.take(n), key),
    decreases env.len() - n,
{
    if n < env.len() {
        assert(env.take(n + 1).drop_last() =~= env.take(n));
        lemma_env_lookup_prefix(env, key, n + 1);
    } else {
        assert(env.take(n) =~= env);
    }
}

impl ExecutableSet {
    /// The registered command with this name, if any.
    pub fn get(&self, name: &str) -> (r: Option<&Executable>)
        ensures
            match r {
                Some(e) => e.name@ == name@ && exe_views(self.exes@).contains(e@),
                None => forall|i: int| 0 <= i < self.exes@.len() ==> #[trigger] self.exes@[i].name@ != name@,
            },
    {
        let wanted = String::from_str(name);
        let mut i: usize = 0;
        while i < self.exes.len()
            invariant
                wanted@ == name@,
                i <= self.exes.len(),
                forall|k: int| 0 <= k < i ==> #[trigger] self.exes@[k].name@ != name@,
            decreases self.exes.len() - i,
        {
            if self.exes[i].name == wanted {
                assert(exe_views(self.exes@)[i as int] == self.exes@[i as int]@);
                return Some(&self.exes[i]);
            }
            i = i + 1;
        }
        None
    }
}


/// The install runs only the pinned requirement, after a `--` that ends the
/// options, asks for a reinstall before it when forced, uses the configured
/// Python, and keeps every directory under the install root.
pub proof fn law_install_isolation(python: Seq<char>, package: Seq<char>, version: Seq<char>, force: bool, root: Seq<char>)
    ensures
        ({
            let a = install_args(python, package, version, force);
            &&& a[a.len() - 1] == package + "=="@ + version
            &&& a[a.len() - 2] == "--"@
            &&& force ==> a[a.len() - 3] == "--reinstall"@
            &&& !force ==> a.len() == 14
            &&& a[5] == "--python"@ && a[6] == python
        }),
        forall|i: int| 0 <= i < path_env(root).len() ==> (#[trigger] path_env(root)[i]).1.take(root.len() + 1int)
            == root.push('/'),
{
    let e = path_env(root);
    reveal_strlit("/tools");
    reveal_strlit("/bin");
    reveal_strlit("/python");
    reveal_strlit("/cache");
    reveal_strlit("/cache/python");
    reveal_strlit("/tmp");
    assert forall|i: int| 0 <= i < e.len() implies (#[trigger] e[i]).1.take(root.len() + 1int) == root.push('/') by {
        assert(e[i].1.take(root.len() + 1int) =~= root.push('/'));
    }
}

/// What the exported files give: a command for every file that has one.
pub open spec fn from_files(files: Seq<Seq<char>>, windows: bool, x: (Seq<char>, Seq<char>)) -> bool {
    exists|i: int| 0 <= i < files.len() && #[trigger] files[i] == x.1 && command_name(files[i], windows) == Some(x.0)
}

/// Collected entries are sorted by name and are exactly the commands of the
/// files.
pub proof fn lemma_collect_entries(files: Seq<Seq<char>>, windows: bool)
    requires
        collect_entries(files, windows) is Ok,
    ensures
        sorted_by(collect_entries(files, windows)->Ok_0, entry_order()),
        forall|x: (Seq<char>, Seq<char>)| #[trigger] collect_entries(files, windows)->Ok_0.contains(x)
            <==> from_files(files, windows, x),
    decreases files.len(),
{
    lemma_entry_order();
    if files.len() > 0 {
        let p = files.drop_last();
        lemma_collect_entries(p, windows);
        let acc = collect_entries(p, windows)->Ok_0;
        let r = collect_entries(files, windows)->Ok_0;
        let f = files.last();
        assert forall|x: (Seq<char>, Seq<char>)| from_files(p, windows, x) implies #[trigger] from_files(files, windows, x) by {
            {
                let i = choose|i: int| 0 <= i < p.len() && #[trigger] p[i] == x.1 && command_name(p[i], windows) == Some(x.0);
                assert(files[i] == p[i]);
            }
        }
        assert forall|x: (Seq<char>, Seq<char>)| #[trigger] from_files(files, windows, x) implies from_files(p, windows, x)
            || (x.1 == f && command_name(f, windows) == Some(x.0)) by {
            {
                let i = choose|i: int| 0 <= i < files.len() && #[trigger] files[i] == x.1 && command_name(files[i], windows) == Some(x.0);
                if i < p.len() {
                    assert(p[i] == files[i]);
                }
            }
        }
        match command_name(f, windows) {
            None => {},
            Some(n) => {
                let x = (n, f);
                lemma_insert_sorted(acc, x, entry_order());
                if !r.contains(x) {
                    let i = choose|i: int| 0 <= i < acc.len() && !entry_order()(x, acc[i]) && !entry_order()(acc[i], x);
                    lemma_text_lt_total(n, acc[i].0);
                    assert(acc[i].0 == n);
                }
                assert(from_files(files, windows, x)) by {
                    assert(files[files.len() - 1] == f);
                }
            },
        }
    }
}

/// Files listed in two orders that both give commands give the same ones.
proof fn lemma_executables_same_when_ok(package: Seq<char>, files1: Seq<Seq<char>>, files2: Seq<Seq<char>>, windows: bool)
    requires
        files1.to_multiset() == files2.to_multiset(),
        executables_of(package, files1, windows) is Ok,
        executables_of(package, files2, windows) is Ok,
    ensures
        executables_of(package, files1, windows) == executables_of(package, files2, windows),
{
    broadcast use vstd::seq_lib::to_multiset_contains;
    lemma_entry_order();
    lemma_collect_entries(files1, windows);
    lemma_collect_entries(files2, windows);
    let a = collect_entries(files1, windows)->Ok_0;
    let b = collect_entries(files2, windows)->Ok_0;
    assert forall|x: (Seq<char>, Seq<char>)| a.contains(x) <==> b.contains(x) by {
        if from_files(files1, windows, x) {
            let i = choose|i: int| 0 <= i < files1.len() && #[trigger] files1[i] == x.1 && command_name(files1[i], windows) == Some(x.0);
            assert(files1.contains(files1[i]));
            assert(files1.to_multiset().count(files1[i]) > 0);
            assert(files2.contains(x.1));
            let j = choose|j: int| 0 <= j < files2.len() && files2[j] == x.1;
            assert(from_files(files2, windows, x));
        }
        if from_files(files2, windows, x) {
            let i = choose|i: int| 0 <= i < files2.len() && #[trigger] files2[i] == x.1 && command_name(files2[i], windows) == Some(x.0);
            assert(files2.contains(files2[i]));
            assert(files2.to_multiset().count(files2[i]) > 0);
            assert(files1.contains(x.1));
            let j = choose|j: int| 0 <= j < files1.len() && files1[j] == x.1;
            assert(from_files(files1, windows, x));
        }
    }
    crate::sorted::lemma_sorted_unique(a, b, entry_order());
}


proof fn lemma_first_match(entries: Seq<(Seq<char>, Seq<char>)>, package: Seq<char>)
    ensures
        first_match(entries, package) matches Some(i) ==> 0 <= i < entries.len() && name_result(entries[i].0)
            == Ok::<Seq<char>, Seq<char>>(package) && forall|j: int| 0 <= j < i ==> name_result(
            #[trigger] entries[j].0,
        ) != Ok::<Seq<char>, Seq<char>>(package),
        first_match(entries, package) is None ==> forall|i: int| 0 <= i < entries.len() ==> name_result(
            #[trigger] entries[i].0,
        ) != Ok::<Seq<char>, Seq<char>>(package),
    decreases entries.len(),
{
    if entries.len() > 0 {
        let p = entries.drop_last();
        lemma_first_match(p, package);
        match first_match(p, package) {
            Some(i) => {
                assert forall|j: int| 0 <= j < i implies name_result(#[trigger] entries[j].0)
                    != Ok::<Seq<char>, Seq<char>>(package) by {
                    assert(p[j] == entries[j]);
                }
            },
            None => {
                assert forall|j: int| 0 <= j < p.len() implies name_result(#[trigger] entries[j].0)
                    != Ok::<Seq<char>, Seq<char>>(package) by {
                    assert(p[j] == entries[j]);
                }
            },
        }
        if first_match(entries, package) is None {
            assert forall|i: int| 0 <= i < entries.len() implies name_result(#[trigger] entries[i].0)
                != Ok::<Seq<char>, Seq<char>>(package) by {
                if i < p.len() {
                    assert(p[i] == entries[i]);
                }
            }
        }
    }
}

/// Registered commands are listed by name, each once; exactly one is
/// primary, and it is a command whose name normalizes to the package name
/// whenever there is one, the first such by name; when none is, the primary
/// command is the one whose name sorts first; none gets a shim in `bin`, and
/// each is found under `bin/` by its file name.
pub proof fn law_registered_commands(package: Seq<char>, files: Seq<Seq<char>>, windows: bool)
    requires
        executables_of(package, files, windows) is Ok,
    ensures
        ({
            let exes = executables_of(package, files, windows)->Ok_0.0;
            &&& exes.len() > 0
            &&& forall|i: int, j: int| 0 <= i < j < exes.len() ==> text_lt(#[trigger] exes[i].0, #[trigger] exes[j].0)
            &&& exists|k: int| 0 <= k < exes.len() && (#[trigger] exes[k]).2 && forall|j: int|
                0 <= j < exes.len() && (#[trigger] exes[j]).2 ==> j == k
            &&& forall|j: int| 0 <= j < exes.len() ==> (#[trigger] exes[j]).3
            &&& (exists|j: int| 0 <= j < exes.len() && name_result(#[trigger] exes[j].0) == Ok::<Seq<char>, Seq<char>>(package))
                ==> forall|k: int| 0 <= k < exes.len() && (#[trigger] exes[k]).2 ==> name_result(exes[k].0)
                == Ok::<Seq<char>, Seq<char>>(package)
            &&& forall|j: int| 0 <= j < exes.len() ==> exists|i: int| 0 <= i < files.len() && (#[trigger] exes[j]).1
                == "bin/"@ + #[trigger] files[i] && command_name(files[i], windows) == Some(exes[j].0)
            &&& forall|k: int, j: int| 0 <= j < k < exes.len() && (#[trigger] exes[k]).2 ==> name_result(
                #[trigger] exes[j].0,
            ) != Ok::<Seq<char>, Seq<char>>(package)
            &&& (forall|j: int| 0 <= j < exes.len() ==> name_result(#[trigger] exes[j].0) != Ok::<Seq<char>, Seq<char>>(package))
                ==> exes[0].2
        }),
{
    lemma_collect_entries(files, windows);
    let entries = collect_entries(files, windows)->Ok_0;
    let k = primary_index(entries, package);
    lemma_first_match(entries, package);
    let exes = executables_of(package, files, windows)->Ok_0.0;
    assert(exes == registered(entries, k));
    assert(0 <= k < exes.len());
    assert(exes[k].2);
    assert forall|i: int, j: int| 0 <= i < j < exes.len() implies text_lt(#[trigger] exes[i].0, #[trigger] exes[j].0) by {
        assert(entry_order()(entries[i], entries[j]));
    }
    assert forall|j: int| 0 <= j < exes.len() implies exists|i: int| 0 <= i < files.len() && (#[trigger] exes[j]).1
        == "bin/"@ + #[trigger] files[i] && command_name(files[i], windows) == Some(exes[j].0) by {
        assert(entries.contains(entries[j]));
        assert(from_files(files, windows, entries[j]));
    }
    assert forall|kk: int, j: int| 0 <= j < kk < exes.len() && (#[trigger] exes[kk]).2 implies name_result(
        #[trigger] exes[j].0,
    ) != Ok::<Seq<char>, Seq<char>>(package) by {
        assert(kk == k);
        assert(exes[j].0 == entries[j].0);
    }
    if forall|j: int| 0 <= j < exes.len() ==> name_result(#[trigger] exes[j].0) != Ok::<Seq<char>, Seq<char>>(package) {
        if first_match(entries, package) is Some {
            assert(exes[k].0 == entries[k].0);
        }
    }
    if exists|j: int| 0 <= j < exes.len() && name_result(#[trigger] exes[j].0) == Ok::<Seq<char>, Seq<char>>(package) {
        let j = choose|j: int| 0 <= j < exes.len() && name_result(#[trigger] exes[j].0) == Ok::<Seq<char>, Seq<char>>(package);
        assert(name_result(entries[j].0) == Ok::<Seq<char>, Seq<char>>(package));
    }
}


/// Every file's command name is supported, and no two files give the same
/// command name.
pub open spec fn commands_acceptable(files: Seq<Seq<char>>, windows: bool) -> bool {
    &&& forall|i: int| 0 <= i < files.len() && (#[trigger] command_name(files[i], windows)) is Some
        ==> valid_command(command_name(files[i], windows)->Some_0)
    &&& forall|i: int, j: int| 0 <= i < j < files.len() && (#[trigger] command_name(files[i], windows)) is Some
        ==> command_name(files[i], windows) != #[trigger] command_name(files[j], windows)
}

/// Collecting the commands fails exactly when some file has an unsupported
/// command name or two files have the same one.
pub proof fn lemma_collect_ok(files: Seq<Seq<char>>, windows: bool)
    ensures
        collect_entries(files, windows) is Ok <==> commands_acceptable(files, windows),
    decreases files.len(),
{
    if files.len() > 0 {
        let p = files.drop_last();
        let f = files.last();
        let last = files.len() - 1;
        lemma_collect_ok(p, windows);
        assert forall|i: int| 0 <= i < p.len() implies #[trigger] p[i] == files[i] by {}
        assert(files[last] == f);
        if commands_acceptable(files, windows) {
            assert forall|i: int| 0 <= i < p.len() && (#[trigger] command_name(p[i], windows)) is Some
                implies valid_command(command_name(p[i], windows)->Some_0) by {
                assert(command_name(files[i], windows) is Some);
            }
            assert forall|i: int, j: int| 0 <= i < j < p.len() && (#[trigger] command_name(p[i], windows)) is Some
                implies command_name(p[i], windows) != #[trigger] command_name(p[j], windows) by {
                assert(command_name(files[i], windows) is Some);
                assert(command_name(files[i], windows) != command_name(files[j], windows));
            }
        }
        if collect_entries(p, windows) is Ok {
            lemma_collect_entries(p, windows);
            let acc = collect_entries(p, windows)->Ok_0;
            let ok_step = match command_name(f, windows) {
                None => true,
                Some(n) => valid_command(n) && !has_name(acc, n),
            };
            if ok_step {
                assert forall|i: int| 0 <= i < files.len() && (#[trigger] command_name(files[i], windows)) is Some
                    implies valid_command(command_name(files[i], windows)->Some_0) by {
                    if i < last {
                        assert(command_name(p[i], windows) is Some);
                    }
                }
                assert forall|i: int, j: int| 0 <= i < j < files.len() && (#[trigger] command_name(files[i], windows)) is Some
                    implies command_name(files[i], windows) != #[trigger] command_name(files[j], windows) by {
                    if j < last {
                        assert(command_name(p[i], windows) is Some);
                        assert(command_name(p[i], windows) != command_name(p[j], windows));
                    } else if command_name(files[i], windows) == command_name(files[j], windows) {
                        let n = command_name(f, windows)->Some_0;
                        let x = (n, p[i]);
                        assert(from_files(p, windows, x));
                        assert(acc.contains(x));
                        let k = choose|k: int| 0 <= k < acc.len() && acc[k] == x;
                        assert(acc[k].0 == n);
                    }
                }
            } else {
                let n = command_name(f, windows)->Some_0;
                if valid_command(n) {
                    let k = choose|k: int| 0 <= k < acc.len() && #[trigger] acc[k].0 == n;
                    assert(acc.contains(acc[k]));
                    assert(from_files(p, windows, acc[k]));
                    let i = choose|i: int| 0 <= i < p.len() && #[trigger] p[i] == acc[k].1
                        && command_name(p[i], windows) == Some(acc[k].0);
                    assert(command_name(files[i], windows) == command_name(files[last], windows));
                    assert(command_name(files[i], windows) is Some);
                } else {
                    assert(command_name(files[last], windows) is Some);
                }
            }
        }
    } else {
        assert(collect_entries(files, windows) is Ok);
    }
}

/// Two positions hold `f` exactly when `f` occurs at least twice.
proof fn lemma_two_copies<A>(s: Seq<A>, f: A, i: int, j: int)
    requires
        0 <= i < j < s.len(),
        s[i] == f,
        s[j] == f,
    ensures
        s.to_multiset().count(f) >= 2,
{
    broadcast use vstd::seq_lib::to_multiset_contains, vstd::seq_lib::to_multiset_remove, vstd::multiset::group_multiset_axioms;
    let r = s.remove(i);
    assert(r[j - 1] == f);
    assert(r.contains(f));
    assert(r.to_multiset().count(f) > 0);
    assert(r.to_multiset() == s.to_multiset().remove(f));
}

proof fn lemma_second_copy<A>(s: Seq<A>, f: A) -> (ij: (int, int))
    requires
        s.to_multiset().count(f) >= 2,
    ensures
        0 <= ij.0 < s.len() && 0 <= ij.1 < s.len() && ij.0 != ij.1 && s[ij.0] == f && s[ij.1] == f,
{
    broadcast use vstd::seq_lib::to_multiset_contains, vstd::seq_lib::to_multiset_remove, vstd::multiset::group_multiset_axioms;
    assert(s.contains(f));
    let a = choose|a: int| 0 <= a < s.len() && s[a] == f;
    let r = s.remove(a);
    assert(r.to_multiset() == s.to_multiset().remove(f));
    assert(r.to_multiset().count(f) > 0);
    assert(r.contains(f));
    let b = choose|b: int| 0 <= b < r.len() && r[b] == f;
    if b < a {
        (a, b)
    } else {
        assert(s[b + 1] == f);
        (a, b + 1)
    }
}

proof fn lemma_acceptable_permutation(files1: Seq<Seq<char>>, files2: Seq<Seq<char>>, windows: bool)
    requires
        files1.to_multiset() == files2.to_multiset(),
        commands_acceptable(files1, windows),
    ensures
        commands_acceptable(files2, windows),
{
    broadcast use vstd::seq_lib::to_multiset_contains;
    assert forall|i: int| 0 <= i < files2.len() && (#[trigger] command_name(files2[i], windows)) is Some
        implies valid_command(command_name(files2[i], windows)->Some_0) by {
        assert(files2.contains(files2[i]));
        assert(files2.to_multiset().count(files2[i]) > 0);
        assert(files1.contains(files2[i]));
        let a = choose|a: int| 0 <= a < files1.len() && files1[a] == files2[i];
        assert(command_name(files1[a], windows) is Some);
    }
    assert forall|i: int, j: int| 0 <= i < j < files2.len() && (#[trigger] command_name(files2[i], windows)) is Some
        implies command_name(files2[i], windows) != #[trigger] command_name(files2[j], windows) by {
        if command_name(files2[i], windows) == command_name(files2[j], windows) {
            let (a, b) = if files2[i] == files2[j] {
                lemma_two_copies(files2, files2[i], i, j);
                lemma_second_copy(files1, files2[i])
            } else {
                assert(files2.contains(files2[i]) && files2.contains(files2[j]));
                assert(files2.to_multiset().count(files2[i]) > 0);
                assert(files2.to_multiset().count(files2[j]) > 0);
                assert(files1.contains(files2[i]) && files1.contains(files2[j]));
                let a = choose|a: int| 0 <= a < files1.len() && files1[a] == files2[i];
                let b = choose|b: int| 0 <= b < files1.len() && files1[b] == files2[j];
                (a, b)
            };
            assert(command_name(files1[a], windows) == command_name(files1[b], windows));
            if a < b {
                assert(command_name(files1[a], windows) != command_name(files1[b], windows));
            } else {
                assert(command_name(files1[b], windows) != command_name(files1[a], windows));
            }
        }
    }
}

/// The registered commands do not depend on the order in which the files
/// are listed: the same files in any order give the same commands, or fail
/// in both orders.
pub proof fn law_executables_order_independent(package: Seq<char>, files1: Seq<Seq<char>>, files2: Seq<Seq<char>>, windows: bool)
    requires
        files1.to_multiset() == files2.to_multiset(),
    ensures
        executables_of(package, files1, windows) is Ok <==> executables_of(package, files2, windows) is Ok,
        executables_of(package, files1, windows) is Ok ==> executables_of(package, files1, windows)
            == executables_of(package, files2, windows),
{
    broadcast use vstd::seq_lib::to_multiset_contains;
    lemma_collect_ok(files1, windows);
    lemma_collect_ok(files2, windows);
    if commands_acceptable(files1, windows) {
        lemma_acceptable_permutation(files1, files2, windows);
    }
    if commands_acceptable(files2, windows) {
        lemma_acceptable_permutation(files2, files1, windows);
    }
    if collect_entries(files1, windows) is Ok && collect_entries(files2, windows) is Ok {
        lemma_collect_entries(files1, windows);
        lemma_collect_entries(files2, windows);
        let a = collect_entries(files1, windows)->Ok_0;
        let b = collect_entries(files2, windows)->Ok_0;
        if a.len() > 0 {
            assert(a.contains(a[0]));
            assert(from_files(files1, windows, a[0]));
            let i = choose|i: int| 0 <= i < files1.len() && #[trigger] files1[i] == a[0].1 && command_name(files1[i], windows) == Some(a[0].0);
            assert(files1.contains(files1[i]));
            assert(files1.to_multiset().count(files1[i]) > 0);
            assert(files2.contains(files1[i]));
            let j = choose|j: int| 0 <= j < files2.len() && files2[j] == files1[i];
            assert(from_files(files2, windows, a[0]));
            assert(b.contains(a[0]));
        }
        if b.len() > 0 {
            assert(b.contains(b[0]));
            assert(from_files(files2, windows, b[0]));
            let i = choose|i: int| 0 <= i < files2.len() && #[trigger] files2[i] == b[0].1 && command_name(files2[i], windows) == Some(b[0].0);
            assert(files2.contains(files2[i]));
            assert(files2.to_multiset().count(files2[i]) > 0);
            assert(files1.contains(files2[i]));
            let j = choose|j: int| 0 <= j < files1.len() && files1[j] == files2[i];
            assert(from_files(files1, windows, b[0]));
            assert(a.contains(b[0]));
        }
    }
    if executables_of(package, files1, windows) is Ok && executables_of(package, files2, windows) is Ok {
        lemma_executables_same_when_ok(package, files1, files2, windows);
    }
}

} // verus!
