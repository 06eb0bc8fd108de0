//! Launching a server: its Java arguments, which jar to start, and how its console output
//! is cleaned and classified.
use vstd::prelude::*;
use crate::config::opt_view;
use crate::paths::{extension, extension_of, file_name, file_name_chars, join, path_join};
use crate::software::Software;
use crate::text::{
    chars_contains, chars_of, lemma_least_index, contains, decimal, is_control, is_control_char, join_strings,
    join_with, owned, push_str, str_eq, string_of, string_views, trim, trim_chars,
    u32_to_decimal,
};

verus! {

/// What `regex::Regex::replace_all` gives for a pattern, a text and a replacement;
/// `None` when the pattern does not compile.
pub uninterp spec fn regex_replace_all(pattern: Seq<char>, text: Seq<char>, rep: Seq<char>) -> Option<Seq<char>>;

/// What `regex::Regex::captures` gives for a pattern and a text, as the text of capture
/// groups 1 and 2; `None` when the pattern does not compile, `Some(None)` when the text
/// does not match.
pub uninterp spec fn regex_groups(pattern: Seq<char>, text: Seq<char>) -> Option<Option<(Option<Seq<char>>, Option<Seq<char>>)>>;

/// Compiles `pattern` with `regex::Regex::new` and replaces every match in `text` by `rep`
/// with `Regex::replace_all`. The result is only named (`regex_replace_all`).
#[verifier::external_body]
fn replace_all_matches(pattern: &str, text: &str, rep: &str) -> (res: Option<String>)
    ensures
        opt_view(res) == regex_replace_all(pattern@, text@, rep@),
{
    match regex::Regex::new(pattern) {
        Ok(re) => Some(re.replace_all(text, rep).into_owned()),
        Err(_) => None,
    }
}

/// The view of the captured groups of a match.
pub open spec fn groups_view(g: Option<Option<(Option<String>, Option<String>)>>) -> Option<Option<(Option<Seq<char>>, Option<Seq<char>>)>> {
    match g {
        Some(Some((a, b))) => Some(Some((opt_view(a), opt_view(b)))),
        Some(None) => Some(None),
        None => None,
    }
}

/// Compiles `pattern` with `regex::Regex::new` and takes groups 1 and 2 of the first match
/// in `text` with `Regex::captures`. The result is only named (`regex_groups`).
#[verifier::external_body]
fn capture_groups(pattern: &str, text: &str) -> (res: Option<Option<(Option<String>, Option<String>)>>)
    ensures
        groups_view(res) == regex_groups(pattern@, text@),
{
    let re = match regex::Regex::new(pattern) { Ok(re) => re, Err(_) => return None };
    let caps = match re.captures(text) { Some(c) => c, None => return Some(None) };
    let one = match caps.get(1) { Some(m) => Some(m.as_str().to_string()), None => None };
    let two = match caps.get(2) { Some(m) => Some(m.as_str().to_string()), None => None };
    Some(Some((one, two)))
}

/// The pattern of terminal control sequences (`ESC [`, parameters, intermediates, final
/// byte) that console output is cleaned of.
pub open spec fn terminal_filter() -> Seq<char> {
    r"\x1B\[[0-?]*[ -/]*[@-~]"@
}

/// `s` without its control characters.
pub open spec fn drop_controls(s: Seq<char>) -> Seq<char>
    decreases s.len(),
{
    if s.len() == 0 {
        s
    } else if is_control(s.last()) {
        drop_controls(s.drop_last())
    } else {
        drop_controls(s.drop_last()).push(s.last())
    }
}

/// A console line cleaned: terminal control sequences removed, surrounding white space
/// trimmed, and the remaining control characters dropped.
pub open spec fn cleaned_line(line: Seq<char>) -> Seq<char> {
    cleaned_from(line, regex_replace_all(terminal_filter(), line, Seq::empty()))
}

/// A console line cleaned, given the line with its terminal control sequences removed
/// (`None` when the pattern could not be used, and the line is taken as it is): surrounding
/// white space trimmed and the remaining control characters dropped.
pub open spec fn cleaned_from(line: Seq<char>, stripped: Option<Seq<char>>) -> Seq<char> {
    let s = match stripped {
        Some(s) => s,
        None => line,
    };
    drop_controls(trim(s))
}

/// No control character is left once they are dropped.
pub proof fn lemma_drop_controls(s: Seq<char>)
    ensures
        forall|i: int| 0 <= i < drop_controls(s).len() ==> !is_control(#[trigger] drop_controls(s)[i]),
        drop_controls(s).len() <= s.len(),
    decreases s.len(),
{
    if s.len() > 0 {
        lemma_drop_controls(s.drop_last());
    }
}

/// Cleans a line of server output of terminal control sequences, surrounding white space
/// and control characters.
pub fn remove_term_noise(line: &str) -> (res: String)
    ensures
        res@ == cleaned_line(line@),
        forall|i: int| 0 <= i < res@.len() ==> !is_control(#[trigger] res@[i]),
{
    let stripped = replace_all_matches(r"\x1B\[[0-?]*[ -/]*[@-~]", line, "");
    proof {
        reveal_strlit("");
        assert(""@ =~= Seq::<char>::empty());
    }
    clean_stripped(line, stripped)
}

/// Cleans a console line once its terminal control sequences are removed (`stripped`;
/// `None` when that could not be done, and the line is taken as it is): surrounding white
/// space trimmed and control characters dropped.
pub fn clean_stripped(line: &str, stripped: Option<String>) -> (res: String)
    ensures
        res@ == cleaned_from(line@, opt_view(stripped)),
        forall|i: int| 0 <= i < res@.len() ==> !is_control(#[trigger] res@[i]),
{
    let stripped = match stripped {
        Some(s) => s,
        None => owned(line),
    };
    let chars = chars_of(stripped.as_str());
    let t = trim_chars(chars.as_slice());
    let n = t.len();
    let mut out: Vec<char> = Vec::new();
    for i in 0..n
        invariant
            n == t@.len(),
            out@ == drop_controls(t@.take(i as int)),
    {
        assert(t@.take(i + 1).drop_last() =~= t@.take(i as int));
        if !is_control_char(t[i]) {
            out.push(t[i]);
        }
    }
    assert(t@.take(n as int) =~= t@);
    proof {
        lemma_drop_controls(t@);
    }
    string_of(out.as_slice())
}

/// The level a server log line is tagged with.
#[derive(Debug, Clone, Copy, PartialEq, Eq, Structural)]
pub enum LogLevel {
    Info,
    Warn,
    Error,
    Debug,
}

/// A log line as shown: a message with a level marker, or plain text.
#[derive(Debug)]
pub enum LogLine {
    Marked(LogLevel, String),
    Plain(String),
}

/// The view of a shown log line.
pub open spec fn log_line_view(l: LogLine) -> (Option<LogLevel>, Seq<char>) {
    match l {
        LogLine::Marked(level, msg) => (Some(level), msg@),
        LogLine::Plain(text) => (None, text@),
    }
}

/// The level a level word names, for the four levels that get a marker.
pub open spec fn level_of(word: Seq<char>) -> Option<LogLevel> {
    if word == "INFO"@ {
        Some(LogLevel::Info)
    } else if word == "WARN"@ {
        Some(LogLevel::Warn)
    } else if word == "ERROR"@ {
        Some(LogLevel::Error)
    } else if word == "DEBUG"@ {
        Some(LogLevel::Debug)
    } else {
        None
    }
}

/// How a log line is shown with a log pattern: when it matches, its message with the
/// marker of its level (a level without marker shows the bare message; a missing group
/// counts as empty); otherwise the line as it is.
pub open spec fn formatted_line(line: Seq<char>, pattern: Seq<char>) -> (Option<LogLevel>, Seq<char>) {
    shown_line(line, regex_groups(pattern, line))
}

/// How a log line is shown, given what the log pattern captured of it (groups 1 and 2;
/// `Some(None)` when it did not match, `None` when the pattern could not be used): when it
/// matched, its message with the marker of its level (a level without marker shows the bare
/// message; a missing group counts as empty); otherwise the line as it is.
pub open spec fn shown_line(line: Seq<char>, groups: Option<Option<(Option<Seq<char>>, Option<Seq<char>>)>>) -> (Option<LogLevel>, Seq<char>) {
    match groups {
        Some(Some((level, msg))) => {
            let level = match level {
                Some(l) => l,
                None => Seq::empty(),
            };
            let msg = match msg {
                Some(m) => m,
                None => Seq::empty(),
            };
            (level_of(level), msg)
        },
        _ => (None, line),
    }
}

fn level_word(word: &str) -> (res: Option<LogLevel>)
    ensures
        res == level_of(word@),
{
    if str_eq(word, "INFO") {
        Some(LogLevel::Info)
    } else if str_eq(word, "WARN") {
        Some(LogLevel::Warn)
    } else if str_eq(word, "ERROR") {
        Some(LogLevel::Error)
    } else if str_eq(word, "DEBUG") {
        Some(LogLevel::Debug)
    } else {
        None
    }
}

/// Splits a log line with a log pattern (see `Software::log_regex`) into its level and
/// message.
pub fn format_line(line: &str, pattern: &str) -> (res: LogLine)
    ensures
        log_line_view(res) == formatted_line(line@, pattern@),
{
    let groups = capture_groups(pattern, line);
    format_captured(line, groups)
}

/// Shows a log line given what its log pattern captured of it (see `shown_line`).
pub fn format_captured(line: &str, groups: Option<Option<(Option<String>, Option<String>)>>) -> (res: LogLine)
    ensures
        log_line_view(res) == shown_line(line@, groups_view(groups)),
{
    match groups {
        Some(Some((level, msg))) => {
            let level = match level {
                Some(l) => l,
                None => String::new(),
            };
            let msg = match msg {
                Some(m) => m,
                None => String::new(),
            };
            match level_word(level.as_str()) {
                Some(l) => LogLine::Marked(l, msg),
                None => LogLine::Plain(msg),
            }
        },
        _ => LogLine::Plain(owned(line)),
    }
}

/// The Java program a server is started with: its own Java path when it names one,
/// otherwise the global one.
pub fn java_program(own: &Option<String>, global: &str) -> (res: String)
    ensures
        res@ == match own {
            Some(j) => j@,
            None => global@,
        },
{
    match own {
        Some(j) => owned(j.as_str()),
        None => owned(global),
    }
}

/// Where a server keeps its EULA acceptance.
pub fn eula_path(server_dir: &str) -> (res: String)
    ensures
        res@ == path_join(server_dir@, "eula.txt"@),
{
    join(server_dir, "eula.txt")
}

/// Whether the Minecraft EULA must be accepted before the server starts: for every kind of
/// software but a custom jar, as long as the server has no EULA file.
pub fn asks_eula(software: Software, eula_exists: bool) -> (res: bool)
    ensures
        res == (software != Software::Custom && !eula_exists),
{
    software != Software::Custom && !eula_exists
}

/// How a console line of the server is shown: `None` when nothing is left of it once
/// cleaned; the cleaned line as it is when logs are not shortened; otherwise the cleaned
/// line split into level and message by the log pattern.
pub open spec fn console_view(raw: Seq<char>, cleaner: bool, pattern: Seq<char>) -> Option<(Option<LogLevel>, Seq<char>)> {
    let c = cleaned_line(raw);
    if c.len() == 0 {
        None
    } else if !cleaner {
        Some((None, c))
    } else {
        Some(formatted_line(c, pattern))
    }
}

/// What to show for a line the server printed (see `console_view`).
pub fn console_line(raw: &str, cleaner: bool, pattern: &str) -> (res: Option<LogLine>)
    ensures
        match res {
            Some(l) => console_view(raw@, cleaner, pattern@) == Some(log_line_view(l)),
            None => console_view(raw@, cleaner, pattern@).is_none(),
        },
{
    let cleaned = remove_term_noise(raw);
    proof {
        reveal_strlit("");
        assert(cleaned@.len() == 0 ==> cleaned@ =~= ""@);
    }
    if str_eq(cleaned.as_str(), "") {
        None
    } else if !cleaner {
        Some(LogLine::Plain(cleaned))
    } else {
        Some(format_line(cleaned.as_str(), pattern))
    }
}

/// How a server is launched.
#[derive(Debug, Clone, Copy, PartialEq, Eq, Structural)]
pub enum Launch {
    /// Its jar is run directly.
    Jar,
    /// Installed software with a run script: the server starter jar is run with the Java
    /// options file.
    Starter,
    /// Installed software without a run script: the server jar found in its directory is
    /// run.
    ServerJar,
}

/// Whether the installer must run before the server starts: installer-based software that
/// was not installed yet.
pub fn needs_install(software: Software, installed: bool) -> (res: bool)
    ensures
        res == ((software == Software::Forge || software == Software::NeoForge) && !installed),
{
    software.is_installer() && !installed
}

/// How a server is launched: installer-based software through the server starter when the
/// installation left a run script, through its server jar otherwise; any other software by
/// running its jar.
pub fn launch_kind(software: Software, has_script: bool) -> (res: Launch)
    ensures
        res == if software == Software::Forge || software == Software::NeoForge {
            if has_script {
                Launch::Starter
            } else {
                Launch::ServerJar
            }
        } else {
            Launch::Jar
        },
{
    if software.is_installer() {
        if has_script {
            Launch::Starter
        } else {
            Launch::ServerJar
        }
    } else {
        Launch::Jar
    }
}

/// The memory options for a heap of `ram_mb` megabytes: half of it at start, all of it at
/// most.
pub open spec fn memory_args(ram_mb: u32) -> Seq<Seq<char>> {
    seq!["-Xms"@ + decimal((ram_mb / 2) as nat) + "M"@, "-Xmx"@ + decimal(ram_mb as nat) + "M"@]
}

/// The Java options of a server: its memory options followed by its extra options.
pub open spec fn jvm_options(ram_mb: u32, extra: Seq<Seq<char>>) -> Seq<Seq<char>> {
    memory_args(ram_mb) + extra
}

/// The arguments that start a server jar directly.
pub open spec fn launch_arguments(ram_mb: u32, extra: Seq<Seq<char>>, jar: Seq<char>) -> Seq<Seq<char>> {
    jvm_options(ram_mb, extra) + seq!["-jar"@, jar, "--nogui"@]
}

fn memory_option(flag: &str, mb: u32) -> (res: String)
    ensures
        res@ == flag@ + decimal(mb as nat) + "M"@,
{
    let mut s = owned(flag);
    let digits = u32_to_decimal(mb);
    push_str(&mut s, digits.as_str());
    push_str(&mut s, "M");
    s
}

/// The Java options of a server: `-Xms` with half the memory, `-Xmx` with all of it, then
/// the extra options in order.
pub fn jvm_args(ram_mb: u32, extra: &Vec<String>) -> (res: Vec<String>)
    ensures
        string_views(res@) == jvm_options(ram_mb, string_views(extra@)),
{
    let mut res: Vec<String> = Vec::new();
    res.push(memory_option("-Xms", ram_mb / 2));
    res.push(memory_option("-Xmx", ram_mb));
    let n = extra.len();
    for i in 0..n
        invariant
            n == extra@.len(),
            string_views(res@) == memory_args(ram_mb) + string_views(extra@).take(i as int),
    {
        let a = extra[i].clone();
        proof {
            assert(string_views(res@.push(a)) =~= string_views(res@).push(a@));
            assert(string_views(extra@).take(i + 1) =~= string_views(extra@).take(i as int).push(extra@[i as int]@));
        }
        res.push(a);
    }
    assert(string_views(extra@).take(n as int) =~= string_views(extra@));
    res
}

/// The arguments that start a server jar directly: the Java options, then `-jar`, the jar
/// and `--nogui`.
pub fn launch_args(ram_mb: u32, extra: &Vec<String>, jar: &str) -> (res: Vec<String>)
    ensures
        string_views(res@) == launch_arguments(ram_mb, string_views(extra@), jar@),
{
    let mut res = jvm_args(ram_mb, extra);
    let ghost before = res@;
    res.push(owned("-jar"));
    res.push(owned(jar));
    res.push(owned("--nogui"));
    assert(string_views(res@) =~= string_views(before) + seq!["-jar"@, jar@, "--nogui"@]);
    res
}

/// The contents of the Java options file of an installed server: one option per line.
pub fn user_jvm_args_text(args: &Vec<String>) -> (res: String)
    ensures
        res@ == join_with(string_views(args@), "\n"@) + "\n"@,
{
    let mut text = join_strings(args, "\n");
    push_str(&mut text, "\n");
    text
}

/// The arguments that start an installed server through the server starter: the Java
/// options file, then `-jar`, the starter and `--nogui`.
pub fn starter_args(args_file: &str, starter: &str) -> (res: Vec<String>)
    ensures
        string_views(res@) == seq!["@"@ + args_file@, "-jar"@, starter@, "--nogui"@],
{
    let mut first = owned("@");
    push_str(&mut first, args_file);
    let mut res: Vec<String> = Vec::new();
    res.push(first);
    res.push(owned("-jar"));
    res.push(owned(starter));
    res.push(owned("--nogui"));
    assert(string_views(res@) =~= seq!["@"@ + args_file@, "-jar"@, starter@, "--nogui"@]);
    res
}

/// Whether a path is a jar: its extension is `jar`.
#[verifier::opaque]
pub open spec fn is_jar(p: Seq<char>) -> bool {
    extension(p) == Some("jar"@)
}

/// The index of the first jar among the paths, if any.
pub open spec fn first_jar(paths: Seq<Seq<char>>) -> Option<int> {
    if exists|i: int| 0 <= i < paths.len() && is_jar(paths[i]) {
        Some(choose|i: int| 0 <= i < paths.len() && is_jar(paths[i]) && forall|j: int| 0 <= j < i ==> !is_jar(paths[j]))
    } else {
        None
    }
}

/// The index of the first server jar among the paths, if any.
pub open spec fn first_server_jar(paths: Seq<Seq<char>>) -> Option<int> {
    if exists|i: int| 0 <= i < paths.len() && is_server_jar(paths[i]) {
        Some(choose|i: int| 0 <= i < paths.len() && is_server_jar(paths[i]) && forall|j: int| 0 <= j < i ==> !is_server_jar(paths[j]))
    } else {
        None
    }
}

/// The first jar is a jar with none before it; with no index there is no jar.
pub proof fn lemma_first_jar(paths: Seq<Seq<char>>)
    ensures
        match first_jar(paths) {
            Some(i) => 0 <= i < paths.len() && is_jar(paths[i]) && forall|j: int| 0 <= j < i ==> !is_jar(#[trigger] paths[j]),
            None => forall|i: int| 0 <= i < paths.len() ==> !is_jar(#[trigger] paths[i]),
        },
{
    if exists|i: int| 0 <= i < paths.len() && is_jar(paths[i]) {
        let p = |i: int| is_jar(paths[i]);
        let w = choose|i: int| 0 <= i < paths.len() && is_jar(paths[i]);
        assert(p(w));
        lemma_least_index(p, paths.len() as int);
        let k = choose|i: int| 0 <= i < paths.len() && #[trigger] p(i) && forall|j: int| 0 <= j < i ==> !#[trigger] p(j);
        assert(forall|j: int| 0 <= j < k ==> !#[trigger] is_jar(paths[j])) by {
            assert forall|j: int| 0 <= j < k implies !#[trigger] is_jar(paths[j]) by {
                assert(!p(j));
            }
        }
        assert(p(k));
    }
}

/// The first server jar is a server jar with none before it; with no index there is none.
pub proof fn lemma_first_server_jar(paths: Seq<Seq<char>>)
    ensures
        match first_server_jar(paths) {
            Some(i) => 0 <= i < paths.len() && is_server_jar(paths[i]) && forall|j: int| 0 <= j < i ==> !is_server_jar(#[trigger] paths[j]),
            None => forall|i: int| 0 <= i < paths.len() ==> !is_server_jar(#[trigger] paths[i]),
        },
{
    if exists|i: int| 0 <= i < paths.len() && is_server_jar(paths[i]) {
        let p = |i: int| is_server_jar(paths[i]);
        let w = choose|i: int| 0 <= i < paths.len() && is_server_jar(paths[i]);
        assert(p(w));
        lemma_least_index(p, paths.len() as int);
        let k = choose|i: int| 0 <= i < paths.len() && #[trigger] p(i) && forall|j: int| 0 <= j < i ==> !#[trigger] p(j);
        assert(forall|j: int| 0 <= j < k ==> !#[trigger] is_server_jar(paths[j])) by {
            assert forall|j: int| 0 <= j < k implies !#[trigger] is_server_jar(paths[j]) by {
                assert(!p(j));
            }
        }
        assert(p(k));
    }
}

fn path_is_jar(p: &str) -> (res: bool)
    ensures
        res == is_jar(p@),
{
    proof {
        reveal_strlit("jar");
        reveal(is_jar);
    }
    match extension_of(p) {
        Some(e) => str_eq(e.as_str(), "jar"),
        None => false,
    }
}

/// The jar to run for custom software: the first listed path whose extension is `jar`.
pub fn get_custom_jar(entries: &Vec<String>) -> (res: Option<String>)
    ensures
        match first_jar(string_views(entries@)) {
            Some(i) => res matches Some(j) && j@ == entries@[i]@,
            None => res.is_none(),
        },
{
    let n = entries.len();
    for i in 0..n
        invariant
            n == entries@.len(),
            forall|j: int| 0 <= j < i ==> !is_jar(string_views(entries@)[j]),
    {
        if path_is_jar(entries[i].as_str()) {
            proof {
                let v = string_views(entries@);
                assert(is_jar(v[i as int]));
                let c = choose|k: int| 0 <= k < v.len() && is_jar(v[k]) && forall|j: int| 0 <= j < k ==> !is_jar(v[j]);
                if c > i {
                    assert(!is_jar(v[i as int]));
                }
            }
            return Some(entries[i].clone());
        }
    }
    None
}

/// Whether a path is the server jar an old installer leaves: a jar whose file name
/// contains `server`.
#[verifier::opaque]
pub open spec fn is_server_jar(p: Seq<char>) -> bool {
    is_jar(p) && (file_name(p) matches Some(name) && contains(name, "server"@))
}

/// The jar `find_server_jar` picks is the first path whose extension is `jar` and whose
/// file name holds `server`; it picks none exactly when no path is such a jar.
pub proof fn lemma_server_jar_choice(paths: Seq<Seq<char>>)
    ensures
        match first_server_jar(paths) {
            Some(i) => {
                &&& 0 <= i < paths.len()
                &&& extension(paths[i]) == Some("jar"@)
                &&& file_name(paths[i]) matches Some(n) && exists|k: int| 0 <= k <= n.len() - 6 && #[trigger] n.subrange(k, k + 6) == "server"@
                &&& forall|j: int| 0 <= j < i ==> !(extension(#[trigger] paths[j]) == Some("jar"@) && (file_name(paths[j]) matches Some(n)
                    && exists|k: int| 0 <= k <= n.len() - 6 && #[trigger] n.subrange(k, k + 6) == "server"@))
            },
            None => forall|j: int| 0 <= j < paths.len() ==> !(extension(#[trigger] paths[j]) == Some("jar"@) && (file_name(paths[j]) matches Some(n)
                && exists|k: int| 0 <= k <= n.len() - 6 && #[trigger] n.subrange(k, k + 6) == "server"@)),
        },
{
    reveal_strlit("server");
    reveal(is_jar);
    reveal(is_server_jar);
    assert("server"@.len() == 6);
    lemma_first_server_jar(paths);
    match first_server_jar(paths) {
        Some(i) => {
            assert(is_server_jar(paths[i]));
            assert forall|j: int| 0 <= j < i implies !(extension(#[trigger] paths[j]) == Some("jar"@) && (file_name(paths[j]) matches Some(n)
                && exists|k: int| 0 <= k <= n.len() - 6 && #[trigger] n.subrange(k, k + 6) == "server"@)) by {
                assert(!is_server_jar(paths[j]));
            }
        },
        None => {
            assert forall|j: int| 0 <= j < paths.len() implies !(extension(#[trigger] paths[j]) == Some("jar"@) && (file_name(paths[j]) matches Some(n)
                && exists|k: int| 0 <= k <= n.len() - 6 && #[trigger] n.subrange(k, k + 6) == "server"@)) by {
                assert(!is_server_jar(paths[j]));
            }
        },
    }
}

/// The jar `get_custom_jar` picks is the first path whose extension is `jar`; it picks none
/// exactly when no path has that extension.
pub proof fn lemma_custom_jar_choice(paths: Seq<Seq<char>>)
    ensures
        match first_jar(paths) {
            Some(i) => 0 <= i < paths.len() && extension(paths[i]) == Some("jar"@) && forall|j: int|
                0 <= j < i ==> extension(#[trigger] paths[j]) != Some("jar"@),
            None => forall|j: int| 0 <= j < paths.len() ==> extension(#[trigger] paths[j]) != Some("jar"@),
        },
{
    lemma_first_jar(paths);
    reveal(is_jar);
    match first_jar(paths) {
        Some(i) => {
            assert(is_jar(paths[i]));
            assert forall|j: int| 0 <= j < i implies extension(#[trigger] paths[j]) != Some("jar"@) by {
                assert(!is_jar(paths[j]));
            }
        },
        None => {
            assert forall|j: int| 0 <= j < paths.len() implies extension(#[trigger] paths[j]) != Some("jar"@) by {
                assert(!is_jar(paths[j]));
            }
        },
    }
}

fn path_is_server_jar(p: &str) -> (res: bool)
    ensures
        res == is_server_jar(p@),
{
    proof {
        reveal(is_server_jar);
    }
    if !path_is_jar(p) {
        return false;
    }
    let server = chars_of("server");
    match file_name_chars(p) {
        Some(name) => chars_contains(name.as_slice(), server.as_slice()),
        None => false,
    }
}

/// The server jar an old installer leaves: the first listed path that is a jar whose file
/// name contains `server`.
pub fn find_server_jar(entries: &Vec<String>) -> (res: Option<String>)
    ensures
        match first_server_jar(string_views(entries@)) {
            Some(i) => res matches Some(j) && j@ == entries@[i]@,
            None => res.is_none(),
        },
{
    let n = entries.len();
    for i in 0..n
        invariant
            n == entries@.len(),
            forall|j: int| 0 <= j < i ==> !is_server_jar(string_views(entries@)[j]),
    {
        if path_is_server_jar(entries[i].as_str()) {
            proof {
                let v = string_views(entries@);
                assert(is_server_jar(v[i as int]));
                let c = choose|k: int| 0 <= k < v.len() && is_server_jar(v[k]) && forall|j: int| 0 <= j < k ==> !is_server_jar(v[j]);
                if c > i {
                    assert(!is_server_jar(v[i as int]));
                }
            }
            return Some(entries[i].clone());
        }
    }
    None
}

/// Records where the server starter jar is, once: a later call leaves the first path in
/// place (`OnceLock::set`).
pub fn set_serverstarter(slot: &mut Option<String>, path: String)
    ensures
        match *old(slot) {
            Some(p) => *final(slot) == Some(p),
            None => *final(slot) == Some(path),
        },
{
    if slot.is_none() {
        *slot = Some(path);
    }
}

} // verus!
