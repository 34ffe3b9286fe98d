//! Sandbox: run a script with a hostile host stripped out. What is decided before and after
//! the run: the environment, the command, the size caps.
//! Defense in depth for *injection* (env bootstrap, module hijack), not egress.

use vstd::prelude::*;

use crate::compress::externalize;
use crate::config::Limits;
use crate::ledger::{Entry, Record, SandboxEntry};
use crate::number;
use crate::number::decimal_of;
use crate::path;
use crate::path::joined_path;
use crate::storage;
use crate::storage::{ext_path, text_digest, FileWrite};
use crate::text;
use crate::text::{byte_count, joined, pieces, texts};

verus! {

/// Variables cleared rather than inherited. Anything that can make an
/// interpreter run arbitrary code at startup, load extra libs, or hijack the
/// module search path.
pub open spec fn denylisted(name: Seq<char>) -> bool {
    // shell / startup
    ||| name == "BASH_ENV"@
    ||| name == "ENV"@
    ||| name == "GITHUB_ENV"@
    ||| name == "PROMPT_COMMAND"@
    ||| name == "ZDOTDIR"@
    ||| name == "IFS"@
    ||| name == "GIT_CONFIG"@
    ||| name == "GIT_CONFIG_COUNT"@
    // JS / node
    ||| name == "NODE_OPTIONS"@
    ||| name == "NODE_PATH"@
    ||| name == "NODE_EXTRA_CA_CERTS"@
    ||| name == "ELECTRON_RUN_AS_NODE"@
    // Python
    ||| name == "PYTHONSTARTUP"@
    ||| name == "PYTHONINSPECT"@
    ||| name == "PYTHONPATH"@
    ||| name == "PYTHONHOME"@
    // Perl / Ruby
    ||| name == "PERL5OPT"@
    ||| name == "PERL5LIB"@
    ||| name == "PERLLIB"@
    ||| name == "RUBYOPT"@
    ||| name == "RUBYLIB"@
    // JVM
    ||| name == "JAVA_TOOL_OPTIONS"@
    ||| name == "_JAVA_OPTIONS"@
    ||| name == "JDK_JAVA_OPTIONS"@
    // .NET
    ||| name == "CORECLR_PROFILER"@
    ||| name == "CORECLR_PROFILER_PATH"@
    ||| name == "CORECLR_ENABLE_PROFILING"@
    ||| name == "DOTNET_STARTUP_HOOKS"@
    ||| name == "DOTNET_ADDITIONAL_DEPS"@
    ||| name == "DOTNET_SHARED_STORE"@
    ||| name == "DOTNET_ENVIRONMENT"@
    // dynamic loading
    ||| name == "LD_PRELOAD"@
    ||| name == "LD_LIBRARY_PATH"@
    ||| name == "LD_AUDIT"@
    ||| name == "DYLD_INSERT_LIBRARIES"@
    ||| name == "DYLD_LIBRARY_PATH"@
    ||| name == "DYLD_FRAMEWORK_PATH"@
    // Windows
    ||| name == "PSModulePath"@
    // proxy: half of the network deny
    ||| name == "HTTP_PROXY"@
    ||| name == "HTTPS_PROXY"@
    ||| name == "ALL_PROXY"@
    ||| name == "NO_PROXY"@
    ||| name == "http_proxy"@
    ||| name == "https_proxy"@
    ||| name == "all_proxy"@
}

/// Names cleared by what they begin with.
pub open spec fn deny_prefixed(name: Seq<char>) -> bool {
    ||| text::begins(name, "GIT_CONFIG_KEY_"@)
    ||| text::begins(name, "GIT_CONFIG_VALUE_"@)
    ||| text::begins(name, "COMPlus_Profiler"@)
}

/// Kept as-is. `LC_ALL` is passed through, never set: forcing a locale
/// destroys non-English output.
pub open spec fn allowlisted(name: Seq<char>) -> bool {
    ||| name == "PATH"@
    ||| name == "HOME"@
    ||| name == "LANG"@
    ||| name == "LC_ALL"@
    ||| name == "TEMP"@
    ||| name == "TMP"@
    ||| name == "SYSTEMROOT"@
    ||| name == "SYSTEMDRIVE"@
    ||| name == "COMSPEC"@
    ||| name == "USERNAME"@
}

/// Does a variable of that name reach the sandbox?
pub open spec fn passed_on(name: Seq<char>) -> bool {
    allowlisted(name) && !denylisted(name) && !deny_prefixed(name)
}

fn is_denylisted(name: &str) -> (b: bool)
    ensures
        b == denylisted(name@),
{
    text::same(name, "BASH_ENV")
        || text::same(name, "ENV")
        || text::same(name, "GITHUB_ENV")
        || text::same(name, "PROMPT_COMMAND")
        || text::same(name, "ZDOTDIR")
        || text::same(name, "IFS")
        || text::same(name, "GIT_CONFIG")
        || text::same(name, "GIT_CONFIG_COUNT")
        || text::same(name, "NODE_OPTIONS")
        || text::same(name, "NODE_PATH")
        || text::same(name, "NODE_EXTRA_CA_CERTS")
        || text::same(name, "ELECTRON_RUN_AS_NODE")
        || text::same(name, "PYTHONSTARTUP")
        || text::same(name, "PYTHONINSPECT")
        || text::same(name, "PYTHONPATH")
        || text::same(name, "PYTHONHOME")
        || text::same(name, "PERL5OPT")
        || text::same(name, "PERL5LIB")
        || text::same(name, "PERLLIB")
        || text::same(name, "RUBYOPT")
        || text::same(name, "RUBYLIB")
        || text::same(name, "JAVA_TOOL_OPTIONS")
        || text::same(name, "_JAVA_OPTIONS")
        || text::same(name, "JDK_JAVA_OPTIONS")
        || text::same(name, "CORECLR_PROFILER")
        || text::same(name, "CORECLR_PROFILER_PATH")
        || text::same(name, "CORECLR_ENABLE_PROFILING")
        || text::same(name, "DOTNET_STARTUP_HOOKS")
        || text::same(name, "DOTNET_ADDITIONAL_DEPS")
        || text::same(name, "DOTNET_SHARED_STORE")
        || text::same(name, "DOTNET_ENVIRONMENT")
        || text::same(name, "LD_PRELOAD")
        || text::same(name, "LD_LIBRARY_PATH")
        || text::same(name, "LD_AUDIT")
        || text::same(name, "DYLD_INSERT_LIBRARIES")
        || text::same(name, "DYLD_LIBRARY_PATH")
        || text::same(name, "DYLD_FRAMEWORK_PATH")
        || text::same(name, "PSModulePath")
        || text::same(name, "HTTP_PROXY")
        || text::same(name, "HTTPS_PROXY")
        || text::same(name, "ALL_PROXY")
        || text::same(name, "NO_PROXY")
        || text::same(name, "http_proxy")
        || text::same(name, "https_proxy")
        || text::same(name, "all_proxy")
}

fn is_deny_prefixed(name: &str) -> (b: bool)
    ensures
        b == deny_prefixed(name@),
{
    text::starts_with(name, "GIT_CONFIG_KEY_")
        || text::starts_with(name, "GIT_CONFIG_VALUE_")
        || text::starts_with(name, "COMPlus_Profiler")
}

fn is_allowlisted(name: &str) -> (b: bool)
    ensures
        b == allowlisted(name@),
{
    text::same(name, "PATH")
        || text::same(name, "HOME")
        || text::same(name, "LANG")
        || text::same(name, "LC_ALL")
        || text::same(name, "TEMP")
        || text::same(name, "TMP")
        || text::same(name, "SYSTEMROOT")
        || text::same(name, "SYSTEMDRIVE")
        || text::same(name, "COMSPEC")
        || text::same(name, "USERNAME")
}

/// Variables with their values.
pub open spec fn vars_of(vars: Seq<(String, String)>) -> Seq<(Seq<char>, Seq<char>)> {
    vars.map_values(|v: (String, String)| (v.0@, v.1@))
}

/// The variables that reach the sandbox, in the order in which they stand.
pub open spec fn filtered(vars: Seq<(Seq<char>, Seq<char>)>) -> Seq<(Seq<char>, Seq<char>)>
    decreases vars.len(),
{
    if vars.len() == 0 {
        Seq::empty()
    } else if passed_on(vars.last().0) {
        filtered(vars.drop_last()).push(vars.last())
    } else {
        filtered(vars.drop_last())
    }
}

/// Everything except the allowlist is dropped.
pub fn filtered_env(vars: Vec<(String, String)>) -> (r: Vec<(String, String)>)
    ensures
        vars_of(r@) == filtered(vars_of(vars@)),
{
    let ghost given = vars@;
    let ghost all = vars_of(vars@);
    let mut out: Vec<(String, String)> = Vec::new();
    assert(vars_of(out@) =~= Seq::empty());
    for var in it: vars
        invariant
            it.seq() == given,
            all == vars_of(given),
            vars_of(out@) == filtered(all.take(it.index() as int)),
    {
        proof {
            assert(all.take(it.index() + 1).drop_last() =~= all.take(it.index() as int));
            assert(all.take(it.index() + 1).last() == (var.0@, var.1@));
        }
        let name = var.0.as_str();
        if is_allowlisted(name) && !is_denylisted(name) && !is_deny_prefixed(name) {
            let ghost done = out@;
            out.push(var);
            assert(vars_of(out@) =~= vars_of(done).push((var.0@, var.1@)));
        }
    }
    assert(all.take(all.len() as int) =~= all);
    out
}

/// No variable outside the allowlist reaches the sandbox, and those that do come from the
/// host with the value they have there.
pub proof fn lemma_only_allowlisted(vars: Seq<(Seq<char>, Seq<char>)>, i: int)
    requires
        0 <= i < filtered(vars).len(),
    ensures
        allowlisted(filtered(vars)[i].0),
        !denylisted(filtered(vars)[i].0),
        vars.contains(filtered(vars)[i]),
    decreases vars.len(),
{
    let before = filtered(vars.drop_last());
    if passed_on(vars.last().0) && i == before.len() {
        assert(vars[vars.len() - 1] == filtered(vars)[i]);
    } else {
        lemma_only_allowlisted(vars.drop_last(), i);
        let k = vars.drop_last().index_of(before[i]);
        assert(vars[k] == before[i]);
    }
}

/// A name on the allowlist is on no other list, so that it always reaches the sandbox.
pub proof fn lemma_lists_apart(name: Seq<char>)
    requires
        allowlisted(name),
    ensures
        passed_on(name),
{
    reveal_strlit("BASH_ENV");
    reveal_strlit("ENV");
    reveal_strlit("GITHUB_ENV");
    reveal_strlit("PROMPT_COMMAND");
    reveal_strlit("ZDOTDIR");
    reveal_strlit("IFS");
    reveal_strlit("GIT_CONFIG");
    reveal_strlit("GIT_CONFIG_COUNT");
    reveal_strlit("NODE_OPTIONS");
    reveal_strlit("NODE_PATH");
    reveal_strlit("NODE_EXTRA_CA_CERTS");
    reveal_strlit("ELECTRON_RUN_AS_NODE");
    reveal_strlit("PYTHONSTARTUP");
    reveal_strlit("PYTHONINSPECT");
    reveal_strlit("PYTHONPATH");
    reveal_strlit("PYTHONHOME");
    reveal_strlit("PERL5OPT");
    reveal_strlit("PERL5LIB");
    reveal_strlit("PERLLIB");
    reveal_strlit("RUBYOPT");
    reveal_strlit("RUBYLIB");
    reveal_strlit("JAVA_TOOL_OPTIONS");
    reveal_strlit("_JAVA_OPTIONS");
    reveal_strlit("JDK_JAVA_OPTIONS");
    reveal_strlit("CORECLR_PROFILER");
    reveal_strlit("CORECLR_PROFILER_PATH");
    reveal_strlit("CORECLR_ENABLE_PROFILING");
    reveal_strlit("DOTNET_STARTUP_HOOKS");
    reveal_strlit("DOTNET_ADDITIONAL_DEPS");
    reveal_strlit("DOTNET_SHARED_STORE");
    reveal_strlit("DOTNET_ENVIRONMENT");
    reveal_strlit("LD_PRELOAD");
    reveal_strlit("LD_LIBRARY_PATH");
    reveal_strlit("LD_AUDIT");
    reveal_strlit("DYLD_INSERT_LIBRARIES");
    reveal_strlit("DYLD_LIBRARY_PATH");
    reveal_strlit("DYLD_FRAMEWORK_PATH");
    reveal_strlit("PSModulePath");
    reveal_strlit("HTTP_PROXY");
    reveal_strlit("HTTPS_PROXY");
    reveal_strlit("ALL_PROXY");
    reveal_strlit("NO_PROXY");
    reveal_strlit("http_proxy");
    reveal_strlit("https_proxy");
    reveal_strlit("all_proxy");
    reveal_strlit("PATH");
    reveal_strlit("HOME");
    reveal_strlit("LANG");
    reveal_strlit("LC_ALL");
    reveal_strlit("TEMP");
    reveal_strlit("TMP");
    reveal_strlit("SYSTEMROOT");
    reveal_strlit("SYSTEMDRIVE");
    reveal_strlit("COMSPEC");
    reveal_strlit("USERNAME");
    reveal_strlit("GIT_CONFIG_KEY_");
    reveal_strlit("GIT_CONFIG_VALUE_");
    reveal_strlit("COMPlus_Profiler");
    // Names of one length differ in a letter.
    assert("TMP"@[0] != "ENV"@[0]);
    assert("TMP"@[0] != "IFS"@[0]);
    assert("SYSTEMROOT"@[0] != "GITHUB_ENV"@[0]);
    assert("SYSTEMROOT"@[0] != "GIT_CONFIG"@[0]);
    assert("SYSTEMROOT"@[0] != "PYTHONPATH"@[0]);
    assert("SYSTEMROOT"@[0] != "PYTHONHOME"@[0]);
    assert("SYSTEMROOT"@[0] != "LD_PRELOAD"@[0]);
    assert("SYSTEMROOT"@[0] != "HTTP_PROXY"@[0]);
    assert("SYSTEMROOT"@[0] != "http_proxy"@[0]);
    assert("SYSTEMDRIVE"@[0] != "HTTPS_PROXY"@[0]);
    assert("SYSTEMDRIVE"@[0] != "https_proxy"@[0]);
    assert("COMSPEC"@[0] != "ZDOTDIR"@[0]);
    assert("COMSPEC"@[0] != "PERLLIB"@[0]);
    assert("COMSPEC"@[0] != "RUBYOPT"@[0]);
    assert("COMSPEC"@[0] != "RUBYLIB"@[0]);
    assert("USERNAME"@[0] != "BASH_ENV"@[0]);
    assert("USERNAME"@[0] != "PERL5OPT"@[0]);
    assert("USERNAME"@[0] != "PERL5LIB"@[0]);
    assert("USERNAME"@[0] != "LD_AUDIT"@[0]);
    assert("USERNAME"@[0] != "NO_PROXY"@[0]);
    if deny_prefixed(name) {
        assert(name.len() >= 15);
    }
}

/// Every variable on the allowlist reaches the sandbox.
pub proof fn lemma_allowlisted_kept(vars: Seq<(Seq<char>, Seq<char>)>, i: int)
    requires
        0 <= i < vars.len(),
        allowlisted(vars[i].0),
    ensures
        filtered(vars).contains(vars[i]),
    decreases vars.len(),
{
    let before = filtered(vars.drop_last());
    lemma_lists_apart(vars[i].0);
    if i == vars.len() - 1 {
        assert(filtered(vars)[before.len() as int] == vars[i]);
    } else {
        lemma_allowlisted_kept(vars.drop_last(), i);
        let k = before.index_of(vars.drop_last()[i]);
        assert(filtered(vars)[k] == vars[i]);
    }
}

/// What a run left behind: its stdout.
#[derive(Debug, PartialEq)]
pub struct Sandboxed {
    pub stdout: String,
}

/// The only refusal: an input larger than the hard cap.
#[derive(Debug, Clone, Copy, PartialEq, Eq)]
pub struct Refusal {
    pub input_bytes: u64,
}

impl Refusal {
    /// What the refusal says.
    pub open spec fn says(self, lim: Limits) -> Seq<char> {
        "input is "@ + decimal_of(self.input_bytes as nat) + " bytes, above the "@ + decimal_of(
            lim.sandbox_hard_cap as nat,
        ) + " byte cap"@
    }

    /// What the refusal says.
    pub fn message(&self, limits: &Limits) -> (r: String)
        ensures
            r@ == self.says(*limits),
    {
        let mut s = text::copy("input is ");
        s.append(number::decimal(self.input_bytes).as_str());
        s.append(" bytes, above the ");
        s.append(number::decimal(limits.sandbox_hard_cap).as_str());
        s.append(" byte cap");
        s
    }
}

/// Is an input of that size taken? One of unknown size is.
pub open spec fn admitted(input_bytes: Option<u64>, lim: Limits) -> bool {
    match input_bytes {
        Some(n) => n <= lim.sandbox_hard_cap,
        None => true,
    }
}

/// Refuses an input over the hard cap, before anything is started. An input whose size is
/// not known is let through.
pub fn admit_input(input_bytes: Option<u64>, limits: &Limits) -> (r: Result<(), Refusal>)
    ensures
        r is Ok <==> admitted(input_bytes, *limits),
        r matches Err(e) ==> Some(e.input_bytes) == input_bytes,
{
    match input_bytes {
        Some(n) => if n > limits.sandbox_hard_cap {
            Err(Refusal { input_bytes: n })
        } else {
            Ok(())
        },
        None => Ok(()),
    }
}

/// The interpreter that a script of that extension needs on Windows, with its arguments.
pub open spec fn interpreter(ext: Option<Seq<char>>) -> Seq<Seq<char>> {
    match ext {
        Some(e) => if e == "ps1"@ {
            seq![
                "powershell"@,
                "-NoProfile"@,
                "-NoLogo"@,
                "-ExecutionPolicy"@,
                "Bypass"@,
                "-File"@,
            ]
        } else if e == "js"@ || e == "mjs"@ {
            seq!["node"@]
        } else if e == "py"@ {
            seq!["python"@]
        } else if e == "sh"@ || e == "bash"@ {
            seq!["bash"@]
        } else {
            Seq::empty()
        },
        None => Seq::empty(),
    }
}

/// A program with its arguments.
pub open spec fn script_line(script: Seq<char>, windows: bool) -> Seq<Seq<char>> {
    if windows {
        interpreter(path::extension_of(path::portable_of(script, windows))).push(script)
    } else {
        seq![script]
    }
}

fn push_word(v: &mut Vec<String>, word: &str)
    ensures
        texts(final(v)@) == texts(old(v)@).push(word@),
{
    let s = text::copy(word);
    proof {
        text::lemma_texts_push(v@, s);
    }
    v.push(s);
}

/// The words that start a script, the program first. Windows does not resolve
/// `script.py`-style paths to their interpreter.
pub fn script_cmd(script: &str, windows: bool) -> (r: Vec<String>)
    ensures
        texts(r@) == script_line(script@, windows),
        r@.len() > 0,
{
    let mut words: Vec<String> = Vec::new();
    assert(texts(words@) =~= Seq::empty());
    if windows {
        if let Some(ext) = path::extension(path::portable(script, windows).as_str()) {
            let e = ext.as_str();
            if text::same(e, "ps1") {
                push_word(&mut words, "powershell");
                push_word(&mut words, "-NoProfile");
                push_word(&mut words, "-NoLogo");
                push_word(&mut words, "-ExecutionPolicy");
                push_word(&mut words, "Bypass");
                push_word(&mut words, "-File");
            } else if text::same(e, "js") || text::same(e, "mjs") {
                push_word(&mut words, "node");
            } else if text::same(e, "py") {
                push_word(&mut words, "python");
            } else if text::same(e, "sh") || text::same(e, "bash") {
                push_word(&mut words, "bash");
            }
        }
        assert(texts(words@) =~= interpreter(
            path::extension_of(path::portable_of(script@, windows)),
        ));
    }
    push_word(&mut words, script);
    assert(texts(words@) =~= script_line(script@, windows));
    assert(texts(words@).len() == words@.len());
    words
}

/// The words of a whole run: the script, its arguments, its input; with network isolation
/// inside `unshare -n`.
pub open spec fn run_line(
    script: Seq<char>,
    args: Seq<Seq<char>>,
    input: Seq<char>,
    windows: bool,
    isolate: bool,
) -> Seq<Seq<char>> {
    (if isolate && !windows {
        seq!["unshare"@, "-n"@]
    } else {
        Seq::empty()
    }) + script_line(script, windows) + args.push(input)
}

/// The words of a run of `script args... input`, the program first. Where the network is to
/// be kept away, the script runs in a network namespace of its own; Windows has none.
pub fn run_words(
    script: &str,
    args: &Vec<String>,
    input: &str,
    windows: bool,
    isolate: bool,
) -> (r: Vec<String>)
    ensures
        texts(r@) == run_line(script@, texts(args@), input@, windows, isolate),
        r@.len() > 0,
{
    let mut words: Vec<String> = Vec::new();
    if isolate && !windows {
        push_word(&mut words, "unshare");
        push_word(&mut words, "-n");
    }
    let ghost start = texts(words@);
    assert(start =~= if isolate && !windows {
        seq!["unshare"@, "-n"@]
    } else {
        Seq::empty()
    });
    let own = script_cmd(script, windows);
    let ghost line = texts(own@);
    let mut i: usize = 0;
    while i < own.len()
        invariant
            i <= own@.len(),
            line == texts(own@),
            texts(words@) =~= start + line.take(i as int),
        decreases own@.len() - i,
    {
        assert(line[i as int] == own@[i as int]@);
        push_word(&mut words, own[i].as_str());
        i = i + 1;
    }
    assert(line.take(i as int) =~= line);
    let ghost middle = texts(words@);
    let ghost rest = texts(args@);
    let mut j: usize = 0;
    while j < args.len()
        invariant
            j <= args@.len(),
            rest == texts(args@),
            texts(words@) =~= middle + rest.take(j as int),
        decreases args@.len() - j,
    {
        assert(rest[j as int] == args@[j as int]@);
        push_word(&mut words, args[j].as_str());
        j = j + 1;
    }
    assert(rest.take(j as int) =~= rest);
    push_word(&mut words, input);
    assert(texts(words@) =~= run_line(script@, texts(args@), input@, windows, isolate));
    assert(texts(words@).len() == words@.len());
    words
}

/// What the watchdog of a run does next.
#[derive(Debug, Clone, Copy, PartialEq, Eq, Structural)]
pub enum Watch {
    /// The script finished on its own.
    Rest,
    /// The time is up: kill the process tree.
    Kill,
    /// Look again in a moment.
    Wait,
}

/// What to do with a script that has run for so long.
pub open spec fn watched(done: bool, elapsed_secs: u64, lim: Limits) -> Watch {
    if done {
        Watch::Rest
    } else if elapsed_secs >= lim.sandbox_timeout {
        Watch::Kill
    } else {
        Watch::Wait
    }
}

/// The watchdog kills the tree on timeout and leaves a finished script alone.
pub fn watch(done: bool, elapsed_secs: u64, limits: &Limits) -> (r: Watch)
    ensures
        r == watched(done, elapsed_secs, *limits),
{
    if done {
        Watch::Rest
    } else if elapsed_secs >= limits.sandbox_timeout {
        Watch::Kill
    } else {
        Watch::Wait
    }
}

/// How many lines of an oversized output are shown.
pub const SHOWN_LINES: usize = 200;

/// The file that keeps the whole of an oversized output.
pub open spec fn output_file(home: Seq<char>, session: Seq<char>, stdout: Seq<char>) -> Seq<char> {
    joined_path(ext_path(home, session), text_digest(stdout) + ".txt"@)
}

/// The first lines of an output.
pub open spec fn first_lines(stdout: Seq<char>) -> Seq<char> {
    let p = pieces(stdout, '\n');
    joined(
        if p.len() <= SHOWN_LINES {
            p
        } else {
            p.take(SHOWN_LINES as int)
        },
        "\n"@,
    )
}

/// The note that stands below the beginning of an oversized output: how large it is, and
/// where all of it is kept.
pub open spec fn clip_note(home: Seq<char>, session: Seq<char>, stdout: Seq<char>) -> Seq<char> {
    "\n[TSK: output truncated; "@ + decimal_of(byte_count(stdout))
        + " bytes total. Full text: "@ + output_file(home, session, stdout) + "]\n"@
}

/// What is shown of an output: all of it, or, beyond the maximum, its first lines, as far as
/// they leave room for the note within the maximum, and the note.
pub open spec fn shown(
    home: Seq<char>,
    session: Seq<char>,
    stdout: Seq<char>,
    lim: Limits,
) -> Seq<char> {
    if byte_count(stdout) <= lim.sandbox_max_output {
        stdout
    } else {
        let note = clip_note(home, session, stdout);
        externalize::head_of(
            first_lines(stdout),
            left_over(lim.sandbox_max_output as nat, byte_count(note)),
        ) + note
    }
}

/// What is shown of an output keeps to the maximum, unless the note alone exceeds it, and of an
/// output beyond the maximum less is shown than there is, unless the note alone is as long.
pub proof fn lemma_shown_bounded(
    home: Seq<char>,
    session: Seq<char>,
    stdout: Seq<char>,
    lim: Limits,
)
    ensures
        byte_count(clip_note(home, session, stdout)) <= lim.sandbox_max_output ==> byte_count(
            shown(home, session, stdout, lim),
        ) <= lim.sandbox_max_output,
        lim.sandbox_max_output < byte_count(stdout) && byte_count(
            clip_note(home, session, stdout),
        ) < byte_count(stdout) ==> byte_count(shown(home, session, stdout, lim)) < byte_count(
            stdout,
        ),
{
    let note = clip_note(home, session, stdout);
    let room = left_over(lim.sandbox_max_output as nat, byte_count(note));
    externalize::lemma_head_fits(first_lines(stdout), room);
    text::lemma_byte_count_concat(externalize::head_of(first_lines(stdout), room), note);
}

/// What is shown of an output, and the file that keeps all of it where it is too large.
#[derive(Debug, PartialEq)]
pub struct Clipped {
    pub shown: String,
    pub full: Option<FileWrite>,
}

impl Clipped {
    /// Is this the clipping of `stdout`? Nothing is lost: what is not shown is kept whole.
    pub open spec fn clips(
        self,
        home: Seq<char>,
        session: Seq<char>,
        stdout: Seq<char>,
        lim: Limits,
    ) -> bool {
        &&& self.shown@ == shown(home, session, stdout, lim)
        &&& self.full is Some <==> byte_count(stdout) > lim.sandbox_max_output
        &&& self.full matches Some(f) ==> f.says() == (output_file(home, session, stdout), stdout)
    }
}

/// Clips an output to the maximum; the caller writes the file that keeps all of it.
pub fn clip(home: &str, session: &str, stdout: &str, limits: &Limits) -> (r: Clipped)
    ensures
        r.clips(home@, session@, stdout@, *limits),
{
    let bytes = text::byte_len(stdout);
    let most: usize = limits.sandbox_max_output;
    if bytes <= most {
        return Clipped { shown: text::copy(stdout), full: None };
    }
    let mut name = storage::digest_text(stdout);
    name.append(".txt");
    let full = path::join(storage::ext_dir(home, session).as_str(), name.as_str());
    let all = text::split(stdout, '\n');
    assert(texts(all@).len() == all@.len());
    let n = all.len();
    let kept = if n <= SHOWN_LINES {
        all
    } else {
        let part = text::copy_range(&all, 0, SHOWN_LINES);
        assert(texts(part@) =~= texts(all@).take(SHOWN_LINES as int));
        part
    };
    let mut note = text::copy("\n[TSK: output truncated; ");
    note.append(number::decimal(bytes as u64).as_str());
    note.append(" bytes total. Full text: ");
    note.append(full.as_str());
    note.append("]\n");
    let note_bytes = text::byte_len(note.as_str());
    let room: usize = if most > note_bytes {
        most - note_bytes
    } else {
        0
    };
    let mut s = externalize::head(text::join(&kept, "\n").as_str(), room);
    s.append(note.as_str());
    Clipped { shown: s, full: Some(FileWrite { path: full, text: text::copy(stdout) }) }
}

/// What is left of `a` after `b`, never less than nothing.
pub open spec fn left_over(a: nat, b: nat) -> nat {
    if a > b {
        (a - b) as nat
    } else {
        0
    }
}

/// What `tsk exec` prints and records.
#[derive(Debug, PartialEq)]
pub struct Executed {
    pub clipped: Clipped,
    pub entry: Entry,
    pub event: String,
}

/// What is recorded of a run: the input, what is shown of the output, and what that saves.
pub open spec fn run_record(
    home: Seq<char>,
    session: Seq<char>,
    input_bytes: usize,
    stdout: Seq<char>,
    ts: u64,
    lim: Limits,
) -> Record {
    Record::Sandbox {
        ts,
        session,
        tool: "Bash"@,
        orig_bytes: input_bytes,
        new_bytes: byte_count(shown(home, session, stdout, lim)) as usize,
        saved: left_over(
            input_bytes as nat,
            byte_count(shown(home, session, stdout, lim)),
        ) as usize,
    }
}

/// The outcome of `tsk exec`: the output as it is shown, and the accounts. The original size
/// is that of the input, which would have entered the context without the sandbox.
pub fn exec(
    home: &str,
    session: &str,
    script: &str,
    input_bytes: usize,
    stdout: &str,
    ts: u64,
    limits: &Limits,
) -> (r: Executed)
    ensures
        r.clipped.clips(home@, session@, stdout@, *limits),
        r.entry.record() == run_record(home@, session@, input_bytes, stdout@, ts, *limits),
        r.event@ == "sandbox: "@ + decimal_of(input_bytes as nat) + " -> "@ + decimal_of(
            byte_count(shown(home@, session@, stdout@, *limits)),
        ) + " bytes (script "@ + script@ + ")"@,
{
    let clipped = clip(home, session, stdout, limits);
    let bytes = text::byte_len(clipped.shown.as_str());
    let saved: usize = if input_bytes > bytes {
        input_bytes - bytes
    } else {
        0
    };
    let entry = Entry::Sandbox(
        SandboxEntry {
            ts,
            session: text::copy(session),
            tool: text::copy("Bash"),
            orig_bytes: input_bytes,
            new_bytes: bytes,
            saved,
        },
    );
    let mut event = text::copy("sandbox: ");
    event.append(number::decimal(input_bytes as u64).as_str());
    event.append(" -> ");
    event.append(number::decimal(bytes as u64).as_str());
    event.append(" bytes (script ");
    event.append(script);
    event.append(")");
    Executed { clipped, entry, event }
}

/// The environment is filtered variable by variable, in order: two environments one behind
/// the other are each filtered on their own, and a variable is passed on with its value
/// exactly where its name is on the list of those that may be.
pub proof fn lemma_filtered_in_turn(
    a: Seq<(Seq<char>, Seq<char>)>,
    b: Seq<(Seq<char>, Seq<char>)>,
)
    ensures
        filtered(a + b) == filtered(a) + filtered(b),
        b.len() == 1 && allowlisted(b[0].0) ==> filtered(b) == b,
        b.len() == 1 && !allowlisted(b[0].0) ==> filtered(b).len() == 0,
    decreases b.len(),
{
    if b.len() == 0 {
        assert(a + b =~= a);
        assert(filtered(a) + filtered(b) =~= filtered(a));
    } else {
        lemma_filtered_in_turn(a, b.drop_last());
        assert((a + b).drop_last() =~= a + b.drop_last());
        assert((a + b).last() == b.last());
        assert(filtered(a + b) =~= filtered(a) + filtered(b));
        if b.len() == 1 {
            assert(filtered(b.drop_last()) =~= Seq::empty());
            if allowlisted(b[0].0) {
                lemma_lists_apart(b[0].0);
                assert(filtered(b) =~= b);
            }
        }
    }
}

/// What an interpreter, a loader or a tool takes orders from is never passed on: no variable
/// whose name begins like one of theirs, and no proxy.
#[verifier::spinoff_prover]
#[verifier::rlimit(30)]
pub proof fn lemma_never_passed_on(name: Seq<char>)
    ensures
        text::begins(name, "LD_"@) ==> !passed_on(name),
        text::begins(name, "DYLD_"@) ==> !passed_on(name),
        text::begins(name, "GIT_"@) ==> !passed_on(name),
        text::begins(name, "NODE_"@) ==> !passed_on(name),
        text::begins(name, "PYTHON"@) ==> !passed_on(name),
        text::begins(name, "PERL"@) ==> !passed_on(name),
        text::begins(name, "RUBY"@) ==> !passed_on(name),
        text::begins(name, "DOTNET_"@) ==> !passed_on(name),
        text::begins(name, "CORECLR_"@) ==> !passed_on(name),
        text::begins(name, "BASH"@) ==> !passed_on(name),
        text::begins(name, "TSK_"@) ==> !passed_on(name),
        name.contains('a') || name.contains('p') || name.contains('=') ==> !passed_on(name),
        name.len() < 3 || name.len() > 11 ==> !passed_on(name),
{
    reveal_strlit("PATH");
    reveal_strlit("HOME");
    reveal_strlit("LANG");
    reveal_strlit("LC_ALL");
    reveal_strlit("TEMP");
    reveal_strlit("TMP");
    reveal_strlit("SYSTEMROOT");
    reveal_strlit("SYSTEMDRIVE");
    reveal_strlit("COMSPEC");
    reveal_strlit("USERNAME");
    reveal_strlit("LD_");
    reveal_strlit("DYLD_");
    reveal_strlit("GIT_");
    reveal_strlit("NODE_");
    reveal_strlit("PYTHON");
    reveal_strlit("PERL");
    reveal_strlit("RUBY");
    reveal_strlit("DOTNET_");
    reveal_strlit("CORECLR_");
    reveal_strlit("BASH");
    reveal_strlit("TSK_");
    lemma_second(name, "LD_"@);
    lemma_second(name, "DYLD_"@);
    lemma_second(name, "GIT_"@);
    lemma_second(name, "NODE_"@);
    lemma_second(name, "PYTHON"@);
    lemma_second(name, "PERL"@);
    lemma_second(name, "RUBY"@);
    lemma_second(name, "DOTNET_"@);
    lemma_second(name, "CORECLR_"@);
    lemma_second(name, "BASH"@);
    lemma_second(name, "TSK_"@);
    if passed_on(name) {
        assert(!name.contains('a')) by {
            if name.contains('a') {
                let i = name.index_of('a');
                assert(name[i] == 'a');
            }
        }
        assert(!name.contains('p')) by {
            if name.contains('p') {
                let i = name.index_of('p');
                assert(name[i] == 'p');
            }
        }
        assert(!name.contains('=')) by {
            if name.contains('=') {
                let i = name.index_of('=');
                assert(name[i] == '=');
            }
        }
    }
}

proof fn lemma_second(name: Seq<char>, pat: Seq<char>)
    requires
        pat.len() >= 3,
    ensures
        text::begins(name, pat) ==> name.len() >= pat.len() && name[0] == pat[0] && name[1]
            == pat[1] && name[2] == pat[2],
{
    if text::begins(name, pat) {
        let head = name.subrange(0, pat.len() as int);
        assert(head[0] == name[0] && head[1] == name[1] && head[2] == name[2]);
    }
}

/// What a script needs to run at all is passed on.
pub proof fn lemma_always_passed_on()
    ensures
        passed_on("PATH"@),
        passed_on("HOME"@),
        passed_on("LANG"@),
        passed_on("LC_ALL"@),
        passed_on("TEMP"@),
        passed_on("TMP"@),
        passed_on("SYSTEMROOT"@),
        passed_on("SYSTEMDRIVE"@),
        passed_on("COMSPEC"@),
        passed_on("USERNAME"@),
{
    lemma_lists_apart("PATH"@);
    lemma_lists_apart("HOME"@);
    lemma_lists_apart("LANG"@);
    lemma_lists_apart("LC_ALL"@);
    lemma_lists_apart("TEMP"@);
    lemma_lists_apart("TMP"@);
    lemma_lists_apart("SYSTEMROOT"@);
    lemma_lists_apart("SYSTEMDRIVE"@);
    lemma_lists_apart("COMSPEC"@);
    lemma_lists_apart("USERNAME"@);
}

/// A script is run with its arguments in order and the input behind them. Without a network
/// it is the same line behind two more words, except on Windows, where an interpreter stands
/// before the script.
pub proof fn lemma_run_line(
    script: Seq<char>,
    args: Seq<Seq<char>>,
    input: Seq<char>,
    windows: bool,
    isolate: bool,
)
    ensures
        run_line(script, args, input, false, false) == seq![script] + args + seq![input],
        run_line(script, args, input, false, true) == seq!["unshare"@, "-n"@] + run_line(
            script,
            args,
            input,
            false,
            false,
        ),
        run_line(script, args, input, true, isolate) == run_line(script, args, input, true, false),
        run_line(script, args, input, windows, isolate).last() == input,
        run_line(script, args, input, windows, isolate).len() >= args.len() + 2,
        run_line(script, args, input, windows, isolate).skip(
            run_line(script, args, input, windows, isolate).len() - args.len() - 2,
        ) == seq![script] + args + seq![input],
{
    let tail = seq![script] + args + seq![input];
    let all = run_line(script, args, input, windows, isolate);
    assert(run_line(script, args, input, false, false) =~= tail);
    assert(run_line(script, args, input, false, true) =~= seq!["unshare"@, "-n"@] + tail);
    assert(all.skip(all.len() - args.len() - 2) =~= tail);
}

/// On Windows the interpreter goes by the extension of the script, and there is none for one
/// that is not known; elsewhere the script runs on its own.
#[verifier::spinoff_prover]
#[verifier::rlimit(30)]
pub proof fn lemma_interpreter(script: Seq<char>, ext: Seq<char>)
    requires
        path::extension_of(path::portable_of(script, true)) == Some(ext),
    ensures
        ext == "py"@ ==> script_line(script, true) == seq!["python"@, script],
        ext == "js"@ || ext == "mjs"@ ==> script_line(script, true) == seq!["node"@, script],
        ext == "sh"@ || ext == "bash"@ ==> script_line(script, true) == seq!["bash"@, script],
        ext == "ps1"@ ==> script_line(script, true)[0] == "powershell"@ && script_line(
            script,
            true,
        ).last() == script && script_line(script, true)[script_line(script, true).len() - 2]
            == "-File"@,
        ext != "py"@ && ext != "js"@ && ext != "mjs"@ && ext != "sh"@ && ext != "bash"@ && ext
            != "ps1"@ ==> script_line(script, true) == seq![script],
        script_line(script, false) == seq![script],
{
    reveal_strlit("py");
    reveal_strlit("js");
    reveal_strlit("mjs");
    reveal_strlit("sh");
    reveal_strlit("bash");
    reveal_strlit("ps1");
    assert("py"@[0] != "js"@[0] && "py"@[0] != "sh"@[0] && "js"@[0] != "sh"@[0]);
    assert("ps1"@.len() == 3 && "mjs"@.len() == 3 && "bash"@.len() == 4);
    assert("ps1"@[0] != "mjs"@[0]);
    assert(script_line(script, true) =~= interpreter(Some(ext)).push(script));
    if ext == "py"@ {
        assert(script_line(script, true) =~= seq!["python"@, script]);
    }
    if ext == "js"@ || ext == "mjs"@ {
        assert(script_line(script, true) =~= seq!["node"@, script]);
    }
    if ext == "sh"@ || ext == "bash"@ {
        assert(script_line(script, true) =~= seq!["bash"@, script]);
    }
}

proof fn lemma_first_lines(stdout: Seq<char>)
    ensures
        first_lines(stdout).len() <= stdout.len(),
        first_lines(stdout) == stdout.take(first_lines(stdout).len() as int),
        pieces(stdout, '\n').len() <= 200 ==> first_lines(stdout) == stdout,
        pieces(stdout, '\n').len() > 200 ==> pieces(first_lines(stdout), '\n') == pieces(
            stdout,
            '\n',
        ).take(200),
{
    let p = pieces(stdout, '\n');
    reveal_strlit("\n");
    assert("\n"@ =~= seq!['\n']);
    text::lemma_join_pieces(stdout, '\n');
    text::lemma_pieces_nonempty(stdout, '\n');
    text::lemma_pieces_clean(stdout, '\n');
    if p.len() <= 200 {
        assert(stdout.take(stdout.len() as int) =~= stdout);
    } else {
        let a = p.take(200);
        let b = p.skip(200);
        assert(a + b =~= p);
        text::lemma_joined_concat(a, b, "\n"@);
        let f = first_lines(stdout);
        assert(stdout == f + "\n"@ + joined(b, "\n"@));
        assert(stdout.take(f.len() as int) =~= f);
        assert forall|i: int| 0 <= i < a.len() implies !(#[trigger] a[i]).contains('\n') by {
            assert(a[i] == p[i]);
        }
        text::lemma_pieces_joined(a, '\n');
    }
}

/// Output that fits is shown as it is. Of output that does not, the beginning is shown, in
/// whole lines, at most two hundred and as many as fit with the note behind them; the note
/// says how large all of it is and where it is kept.
#[verifier::spinoff_prover]
#[verifier::rlimit(30)]
pub proof fn lemma_shown(
    home: Seq<char>,
    session: Seq<char>,
    stdout: Seq<char>,
    lim: Limits,
) -> (kept: int)
    ensures
        byte_count(stdout) <= lim.sandbox_max_output ==> shown(home, session, stdout, lim) == stdout,
        byte_count(stdout) > lim.sandbox_max_output ==> {
            let note = clip_note(home, session, stdout);
            &&& 0 <= kept <= stdout.len()
            &&& shown(home, session, stdout, lim) == stdout.take(kept) + note
            &&& pieces(stdout.take(kept), '\n').len() <= 200
            &&& forall|k: int|
                kept < k <= stdout.len() && byte_count(#[trigger] stdout.take(k)) + byte_count(note)
                    <= lim.sandbox_max_output && pieces(stdout.take(k), '\n').len() <= 200
                    ==> stdout[k - 1] != '\n' && kept > 0 && stdout[kept - 1] == '\n'
            &&& text::holds(note, decimal_of(byte_count(stdout)) + " bytes total. Full text: "@)
            &&& text::holds(note, output_file(home, session, stdout))
        },
{
    if byte_count(stdout) <= lim.sandbox_max_output {
        0
    } else {
        let note = clip_note(home, session, stdout);
        let room = left_over(lim.sandbox_max_output as nat, byte_count(note));
        let f = first_lines(stdout);
        let h = externalize::head_of(f, room);
        let kept = h.len() as int;
        lemma_first_lines(stdout);
        externalize::lemma_head(f, room);
        assert(f.take(kept) =~= stdout.take(kept));
        lemma_pieces_shorter(f, kept);
        text::lemma_pieces_nonempty(stdout, '\n');
        assert forall|k: int|
            kept < k <= stdout.len() && byte_count(#[trigger] stdout.take(k)) + byte_count(note)
                <= lim.sandbox_max_output && pieces(stdout.take(k), '\n').len() <= 200 implies
            stdout[k - 1] != '\n' && kept > 0 && stdout[kept - 1] == '\n' by {
            lemma_within_first(stdout, k);
            assert(f.take(k) =~= stdout.take(k));
            assert(byte_count(f.take(k)) <= room);
            if byte_count(f) <= room {
                assert(h == f);
            }
        }
        let a = "\n[TSK: output truncated; "@;
        let b = decimal_of(byte_count(stdout));
        let c = " bytes total. Full text: "@;
        let d = output_file(home, session, stdout);
        assert(note.subrange(0, note.len() as int) =~= note);
        text::lemma_begins_first(note, a + b + c + d, "]\n"@);
        text::lemma_begins_holds(note, a + b + c, d);
        text::lemma_begins_first(note, a + b + c, d);
        assert(a + b + c =~= a + (b + c));
        text::lemma_begins_holds(note, a, b + c);
        kept
    }
}

proof fn lemma_pieces_shorter(s: Seq<char>, k: int)
    requires
        0 <= k <= s.len(),
    ensures
        pieces(s.take(k), '\n').len() <= pieces(s, '\n').len(),
    decreases s.len() - k,
{
    if k < s.len() {
        lemma_pieces_shorter(s, k + 1);
        assert(s.take(k + 1).drop_last() =~= s.take(k));
        text::lemma_pieces_nonempty(s.take(k), '\n');
    } else {
        assert(s.take(k) =~= s);
    }
}

proof fn lemma_within_first(stdout: Seq<char>, k: int)
    requires
        0 <= k <= stdout.len(),
        pieces(stdout.take(k), '\n').len() <= 200,
    ensures
        k <= first_lines(stdout).len(),
{
    let f = first_lines(stdout);
    let p = pieces(stdout, '\n');
    lemma_first_lines(stdout);
    if k > f.len() {
        reveal_strlit("\n");
        assert("\n"@ =~= seq!['\n']);
        text::lemma_join_pieces(stdout, '\n');
        let a = p.take(200);
        let b = p.skip(200);
        assert(a + b =~= p);
        text::lemma_joined_concat(a, b, "\n"@);
        assert(f == joined(a, "\n"@));
        assert(stdout == f + "\n"@ + joined(b, "\n"@));
        let t = stdout.take(f.len() as int + 1);
        assert(t =~= f + seq!['\n'] + Seq::empty());
        text::lemma_pieces_concat(f, Seq::empty(), '\n');
        text::lemma_pieces_plain(Seq::empty(), '\n');
        lemma_pieces_shorter(stdout.take(k), f.len() as int + 1);
        assert(stdout.take(k).take(f.len() as int + 1) =~= t);
    }
}

/// A script that is done is left alone however long it took; one that is not is waited for
/// until the time is up, and killed from then on.
pub proof fn lemma_watched(elapsed: u64, later: u64, lim: Limits)
    ensures
        watched(true, elapsed, lim) == Watch::Rest,
        watched(false, elapsed, lim) != Watch::Rest,
        watched(false, lim.sandbox_timeout, lim) == Watch::Kill,
        elapsed < lim.sandbox_timeout ==> watched(false, elapsed, lim) == Watch::Wait,
        watched(false, elapsed, lim) == Watch::Kill && elapsed <= later ==> watched(
            false,
            later,
            lim,
        ) == Watch::Kill,
{
}

/// An input is taken up to the cap and with it; none above is.
pub proof fn lemma_admitted(n: u64, m: u64, lim: Limits)
    ensures
        admitted(None, lim),
        admitted(Some(lim.sandbox_hard_cap), lim),
        n > lim.sandbox_hard_cap ==> !admitted(Some(n), lim),
        admitted(Some(n), lim) && m <= n ==> admitted(Some(m), lim),
{
}

/// What a run saves is what the shown output is smaller by than the input, and nothing where
/// it is not smaller.
pub proof fn lemma_run_recorded(
    home: Seq<char>,
    session: Seq<char>,
    input_bytes: usize,
    stdout: Seq<char>,
    ts: u64,
    lim: Limits,
)
    requires
        byte_count(shown(home, session, stdout, lim)) <= usize::MAX,
    ensures
        run_record(home, session, input_bytes, stdout, ts, lim) matches Record::Sandbox {
            ts: at,
            session: under,
            orig_bytes,
            new_bytes,
            saved,
            ..
        } && at == ts && under == session && orig_bytes == input_bytes && new_bytes == byte_count(
            shown(home, session, stdout, lim),
        ) && (new_bytes <= orig_bytes ==> saved + new_bytes == orig_bytes) && (new_bytes
            > orig_bytes ==> saved == 0),
{
}

} // verus!
