//! What the commands say and decide: `init`, `off`, `doctor`.

use vstd::prelude::*;

use crate::settings::Merge;
use crate::text;
use crate::text::{begins, found_at, holds, joined, pieces, replaced, texts, trimmed};

verus! {

/// The text of a config file with TSK switched off: every line as it was, but for the switch
/// in lines that are no comments.
pub open spec fn disabled(txt: Seq<char>) -> Seq<char> {
    joined(disabled_lines(pieces(txt, '\n')), "\n"@)
}

/// Is a line a comment? Its first character that is not blank is a number sign.
pub open spec fn is_comment(line: Seq<char>) -> bool {
    begins(trimmed(line), "#"@)
}

/// A line with the switch turned; a comment stays as it is.
pub open spec fn disabled_line(line: Seq<char>) -> Seq<char> {
    if is_comment(line) {
        line
    } else {
        replaced(line, "enabled: true"@, "enabled: false"@)
    }
}

/// Lines with the switch turned.
pub open spec fn disabled_lines(lines: Seq<Seq<char>>) -> Seq<Seq<char>> {
    lines.map_values(|l: Seq<char>| disabled_line(l))
}

/// Flip `enabled: true` to `enabled: false` in the config text, keeping the comment
/// lines, so that `tsk off` does not strip the level documentation that `tsk init` wrote.
pub fn disable_enabled_in_yaml(txt: &str) -> (r: String)
    ensures
        r@ == disabled(txt@),
{
    let lines = text::split(txt, '\n');
    let mut out: Vec<String> = Vec::new();
    let ghost want = disabled_lines(texts(lines@));
    let mut i: usize = 0;
    while i < lines.len()
        invariant
            i <= lines@.len(),
            want == disabled_lines(texts(lines@)),
            out@.len() == i,
            forall|k: int| 0 <= k < i ==> (#[trigger] out@[k])@ == want[k],
        decreases lines@.len() - i,
    {
        let l = lines[i].as_str();
        assert(want[i as int] == disabled_line(l@));
        if text::starts_with(text::trim(l).as_str(), "#") {
            out.push(text::copy(l));
        } else if text::contains(l, "enabled: true") {
            proof {
                reveal_strlit("enabled: true");
            }
            out.push(text::replace(l, "enabled: true", "enabled: false"));
        } else {
            proof {
                text::lemma_replaced_absent(l@, "enabled: true"@, "enabled: false"@);
            }
            out.push(text::copy(l));
        }
        i = i + 1;
    }
    assert(texts(out@) =~= want);
    text::join(&out, "\n")
}

spec fn on() -> Seq<char> {
    "enabled: true"@
}

spec fn off_() -> Seq<char> {
    "enabled: false"@
}

/// The switch without its first letter.
spec fn on_rest() -> Seq<char> {
    "nabled: true"@
}

/// Two switches that share a letter. Turning the first leaves another behind.
pub open spec fn entangled(txt: Seq<char>) -> bool {
    holds(txt, "enabled: truenabled: true"@)
}

proof fn lemma_words()
    ensures
        on().len() == 13,
        off_().len() == 14,
        on_rest().len() == 12,
        on() == seq!['e', 'n', 'a', 'b', 'l', 'e', 'd', ':', ' ', 't', 'r', 'u', 'e'],
        off_() == seq!['e', 'n', 'a', 'b', 'l', 'e', 'd', ':', ' ', 'f', 'a', 'l', 's', 'e'],
        on_rest() == seq!['n', 'a', 'b', 'l', 'e', 'd', ':', ' ', 't', 'r', 'u', 'e'],
        "enabled: truenabled: true"@ == on() + on_rest(),
{
    reveal_strlit("enabled: true");
    reveal_strlit("enabled: false");
    reveal_strlit("nabled: true");
    reveal_strlit("enabled: truenabled: true");
    assert(on() =~= seq!['e', 'n', 'a', 'b', 'l', 'e', 'd', ':', ' ', 't', 'r', 'u', 'e']);
    assert(off_() =~= seq!['e', 'n', 'a', 'b', 'l', 'e', 'd', ':', ' ', 'f', 'a', 'l', 's', 'e']);
    assert(on_rest() =~= seq!['n', 'a', 'b', 'l', 'e', 'd', ':', ' ', 't', 'r', 'u', 'e']);
    assert("enabled: truenabled: true"@ =~= on() + on_rest());
}

proof fn lemma_begins_at(s: Seq<char>, pat: Seq<char>)
    ensures
        begins(s, pat) <==> s.len() >= pat.len() && forall|k: int|
            0 <= k < pat.len() ==> s[k] == #[trigger] pat[k],
{
    if begins(s, pat) {
        assert forall|k: int| 0 <= k < pat.len() implies s[k] == #[trigger] pat[k] by {
            assert(s.subrange(0, pat.len() as int)[k] == s[k]);
        }
    }
    if s.len() >= pat.len() && (forall|k: int| 0 <= k < pat.len() ==> s[k] == #[trigger] pat[k]) {
        assert(s.subrange(0, pat.len() as int) =~= pat);
    }
}

proof fn lemma_rest_unchanged(t: Seq<char>, j: int)
    requires
        0 <= j <= 12,
        begins(replaced(t, on(), off_()), on_rest().skip(j)),
    ensures
        begins(t, on_rest().skip(j)),
    decreases t.len(),
{
    lemma_words();
    let w = on_rest().skip(j);
    let r = replaced(t, on(), off_());
    lemma_begins_at(t, w);
    lemma_begins_at(r, w);
    if j == 12 {
    } else if t.len() < 13 {
    } else if begins(t, on()) {
        lemma_begins_at(t, on());
        let rest = replaced(t.skip(13), on(), off_());
        assert(r == off_() + rest);
        assert(w[0] == on_rest()[j]);
        assert(r[0] == 'e');
        assert(j == 4 || j == 11);
        if j == 4 {
            assert(w[1] == on_rest()[5]);
            assert(r[1] == 'n');
        } else {
            assert(on()[0] == 'e');
            assert(t[0] == on()[0]);
        }
    } else {
        let rest = replaced(t.skip(1), on(), off_());
        assert(r == seq![t[0]] + rest);
        let v = on_rest().skip(j + 1);
        lemma_begins_at(rest, v);
        assert forall|k: int| 0 <= k < v.len() implies rest[k] == #[trigger] v[k] by {
            assert(r[k + 1] == w[k + 1]);
        }
        lemma_rest_unchanged(t.skip(1), j + 1);
        lemma_begins_at(t.skip(1), v);
        assert forall|k: int| 0 <= k < w.len() implies t[k] == #[trigger] w[k] by {
            if k > 0 {
                assert(t.skip(1)[k - 1] == v[k - 1]);
            } else {
                assert(r[0] == w[0]);
            }
        }
    }
}

proof fn lemma_no_switch_left(s: Seq<char>)
    requires
        !entangled(s),
    ensures
        !holds(replaced(s, on(), off_()), on()),
    decreases s.len(),
{
    lemma_words();
    let r = replaced(s, on(), off_());
    if s.len() < 13 {
    } else {
        let turned = begins(s, on());
        let n: int = if turned {
            13
        } else {
            1
        };
        let rest = s.skip(n);
        let head = if turned {
            off_()
        } else {
            seq![s[0]]
        };
        let tail = replaced(rest, on(), off_());
        assert(r == head + tail);
        assert(!entangled(rest)) by {
            if entangled(rest) {
                assert(s.take(n) + rest =~= s);
                text::lemma_has_concat(s.take(n), rest, "enabled: truenabled: true"@);
            }
        }
        lemma_no_switch_left(rest);
        if holds(r, on()) {
            let i = choose|i: int| found_at(r, on(), i);
            let at = r.subrange(i, i + 13);
            assert(at == on());
            if i >= head.len() {
                assert(tail.subrange(i - head.len(), i - head.len() + 13) =~= at);
                assert(found_at(tail, on(), i - head.len()));
            } else if turned {
                assert(r[i] == off_()[i]);
                assert(at[0] == r[i]);
                assert(on()[0] == 'e');
                assert(i == 0 || i == 5 || i == 13);
                if i == 0 {
                    assert(at[9] == r[9]);
                    assert(r[9] == off_()[9]);
                } else if i == 5 {
                    assert(at[1] == r[6]);
                    assert(r[6] == off_()[6]);
                } else {
                    lemma_begins_at(tail, on_rest().skip(0));
                    assert forall|k: int| 0 <= k < on_rest().skip(0).len() implies tail[k]
                        == #[trigger] on_rest().skip(0)[k] by {
                        assert(at[k + 1] == r[14 + k]);
                        assert(on()[k + 1] == on_rest()[k]);
                    }
                    lemma_rest_unchanged(rest, 0);
                    lemma_begins_at(rest, on_rest().skip(0));
                    lemma_begins_at(s, on());
                    let both = on() + on_rest();
                    lemma_begins_at(s, both);
                    assert forall|k: int| 0 <= k < both.len() implies s[k] == #[trigger] both[k] by {
                        if k < 13 {
                            assert(s[k] == on()[k]);
                        } else {
                            assert(rest[k - 13] == on_rest().skip(0)[k - 13]);
                        }
                    }
                    assert(found_at(s, both, 0));
                }
            } else {
                lemma_begins_at(tail, on_rest().skip(0));
                assert forall|k: int| 0 <= k < on_rest().skip(0).len() implies tail[k]
                    == #[trigger] on_rest().skip(0)[k] by {
                    assert(at[k + 1] == r[1 + k]);
                    assert(on()[k + 1] == on_rest()[k]);
                }
                lemma_rest_unchanged(rest, 0);
                lemma_begins_at(rest, on_rest().skip(0));
                lemma_begins_at(s, on());
                assert forall|k: int| 0 <= k < on().len() implies s[k] == #[trigger] on()[k] by {
                    if k == 0 {
                        assert(at[0] == r[0]);
                    } else {
                        assert(rest[k - 1] == on_rest().skip(0)[k - 1]);
                    }
                }
            }
        }
    }
}

/// Switching off is done once: no line but a comment is left that says `enabled: true`, and
/// switching off again changes nothing. The one exception is a text in which two switches
/// share a letter.
pub proof fn lemma_off_once(txt: Seq<char>)
    requires
        !entangled(txt),
    ensures
        disabled(disabled(txt)) == disabled(txt),
        forall|i: int|
            0 <= i < pieces(disabled(txt), '\n').len() ==> is_comment(
                #[trigger] pieces(disabled(txt), '\n')[i],
            ) || !holds(pieces(disabled(txt), '\n')[i], "enabled: true"@),
{
    lemma_disabled_pieces(txt);
    let lines = pieces(txt, '\n');
    let turned = disabled_lines(lines);
    text::lemma_piece_within(txt, '\n');
    assert forall|i: int| 0 <= i < turned.len() implies is_comment(#[trigger] turned[i])
        || !holds(turned[i], "enabled: true"@) by {
        let l = lines[i];
        assert(turned[i] == disabled_line(l));
        if !is_comment(l) {
            if entangled(l) {
                text::lemma_has_within(txt, l, "enabled: truenabled: true"@);
            }
            lemma_no_switch_left(l);
        }
    }
    assert forall|i: int| 0 <= i < turned.len() implies disabled_lines(turned)[i] == turned[i] by {
        assert(disabled_lines(turned)[i] == disabled_line(turned[i]));
        if !is_comment(turned[i]) {
            text::lemma_replaced_absent(turned[i], "enabled: true"@, "enabled: false"@);
        }
    }
    assert(disabled_lines(turned) =~= turned);
}

/// The lines of a config file that was switched off are its lines, each with the switch
/// turned.
proof fn lemma_disabled_pieces(txt: Seq<char>)
    ensures
        pieces(disabled(txt), '\n') == disabled_lines(pieces(txt, '\n')),
{
    reveal_strlit("\n");
    assert("\n"@ =~= seq!['\n']);
    let lines = pieces(txt, '\n');
    let turned = disabled_lines(lines);
    text::lemma_pieces_nonempty(txt, '\n');
    text::lemma_pieces_clean(txt, '\n');
    lemma_words();
    assert forall|i: int| 0 <= i < turned.len() implies !(#[trigger] turned[i]).contains('\n') by {
        let l = lines[i];
        assert(turned[i] == disabled_line(l));
        assert(!off_().contains('\n'));
        text::lemma_replaced_without(l, on(), off_(), '\n');
    }
    text::lemma_pieces_joined(turned, '\n');
}

/// Switching off keeps every comment line where it stands.
pub proof fn lemma_comments_kept(txt: Seq<char>, i: int)
    requires
        0 <= i < pieces(txt, '\n').len(),
        is_comment(pieces(txt, '\n')[i]),
    ensures
        pieces(disabled(txt), '\n').len() == pieces(txt, '\n').len(),
        pieces(disabled(txt), '\n')[i] == pieces(txt, '\n')[i],
{
    lemma_disabled_pieces(txt);
}

/// A check and its outcome.
pub fn check(label: &'static str, good: bool) -> (r: (&'static str, bool))
    ensures
        r.0@ == label@,
        r.1 == good,
{
    (label, good)
}

/// How a check is shown.
pub open spec fn check_line(label: Seq<char>, good: bool) -> Seq<char> {
    "["@ + (if good {
        "ok"@
    } else {
        "FAIL"@
    }) + "] "@ + label
}

/// What `tsk doctor` says: a line a check, and the verdict.
#[derive(Debug, PartialEq)]
pub struct Diagnosis {
    pub lines: Vec<String>,
    pub verdict: String,
}

fn line(c: (&'static str, bool)) -> (r: String)
    ensures
        r@ == check_line(c.0@, c.1),
{
    let mut s = text::copy("[");
    if c.1 {
        s.append("ok");
    } else {
        s.append("FAIL");
    }
    s.append("] ");
    s.append(c.0);
    s
}

/// The lines of a diagnosis, one for each check.
pub open spec fn diagnosed(config: bool, writable: bool, wired: bool, on_path: bool) -> Seq<
    Seq<char>,
> {
    seq![
        check_line("config present"@, config),
        check_line("~/.tsk writable"@, writable),
        check_line("settings.json wired"@, wired),
        check_line("tsk in PATH"@, on_path),
    ]
}

/// What a diagnosis comes to.
pub open spec fn verdict(config: bool, writable: bool, wired: bool, on_path: bool) -> Seq<char> {
    if config && writable && wired && on_path {
        "doctor: all checks passed\n"@
    } else {
        "doctor: some checks failed\n"@
    }
}

/// Self-check: config, writability, hook wiring, PATH.
pub fn doctor(config: bool, writable: bool, wired: bool, on_path: bool) -> (r: Diagnosis)
    ensures
        texts(r.lines@) == diagnosed(config, writable, wired, on_path),
        r.verdict@ == verdict(config, writable, wired, on_path),
{
    let mut lines: Vec<String> = Vec::new();
    lines.push(line(check("config present", config)));
    lines.push(line(check("~/.tsk writable", writable)));
    lines.push(line(check("settings.json wired", wired)));
    lines.push(line(check("tsk in PATH", on_path)));
    assert(texts(lines@) =~= diagnosed(config, writable, wired, on_path));
    let verdict = if config && writable && wired && on_path {
        text::copy("doctor: all checks passed\n")
    } else {
        text::copy("doctor: some checks failed\n")
    };
    Diagnosis { lines, verdict }
}

/// What `tsk init` ends with.
pub fn init(complete: bool, cfg_path: &str) -> (r: String)
    ensures
        r@ == (if complete {
            "tsk: enabled. Output compression is OFF until you edit "@ + cfg_path@ + "\n"@
        } else {
            "tsk: installed incompletely (see above)\n"@
        }),
{
    if complete {
        let mut s = text::copy("tsk: enabled. Output compression is OFF until you edit ");
        s.append(cfg_path);
        s.append("\n");
        s
    } else {
        text::copy("tsk: installed incompletely (see above)\n")
    }
}

/// What became of the config file when TSK was switched off.
#[derive(Debug, Clone, Copy, PartialEq, Eq, Structural)]
pub enum ConfigOff {
    Disabled,
    NotWritten,
    NotSerialized,
    NoFile,
}

/// What is said of the config file.
pub open spec fn config_line(c: ConfigOff) -> Seq<char> {
    match c {
        ConfigOff::Disabled => "tsk: config disabled\n"@,
        ConfigOff::NotWritten => "tsk: could not write config\n"@,
        ConfigOff::NotSerialized => "tsk: could not serialize config\n"@,
        ConfigOff::NoFile => "tsk: no config file\n"@,
    }
}

/// What is said of the hooks.
pub open spec fn hooks_line(hooks: Result<Merge, Seq<char>>) -> Seq<char> {
    match hooks {
        Ok(Merge::Removed) => "tsk: hooks removed\n"@,
        Ok(_) => "tsk: no TSK hooks found\n"@,
        Err(e) => "tsk: could not remove hooks: "@ + e + "\n"@,
    }
}

/// What happened to the hooks, with the message as text.
pub open spec fn hooks_outcome(hooks: Result<Merge, String>) -> Result<Merge, Seq<char>> {
    match hooks {
        Ok(m) => Ok(m),
        Err(e) => Err(e@),
    }
}

/// What `tsk off` says.
pub fn off(config: ConfigOff, hooks: Result<Merge, String>) -> (r: String)
    ensures
        r@ == config_line(config) + hooks_line(hooks_outcome(hooks)),
{
    let mut s = match config {
        ConfigOff::Disabled => text::copy("tsk: config disabled\n"),
        ConfigOff::NotWritten => text::copy("tsk: could not write config\n"),
        ConfigOff::NotSerialized => text::copy("tsk: could not serialize config\n"),
        ConfigOff::NoFile => text::copy("tsk: no config file\n"),
    };
    match hooks {
        Ok(Merge::Removed) => s.append("tsk: hooks removed\n"),
        Ok(_) => s.append("tsk: no TSK hooks found\n"),
        Err(e) => {
            let mut m = text::copy("tsk: could not remove hooks: ");
            m.append(e.as_str());
            m.append("\n");
            s.append(m.as_str());
        },
    }
    s
}

/// Switching off changes only lines that switch on: any other line stays as it is.
pub proof fn lemma_other_lines_kept(txt: Seq<char>, i: int)
    requires
        0 <= i < pieces(txt, '\n').len(),
        !holds(pieces(txt, '\n')[i], "enabled: true"@),
    ensures
        pieces(disabled(txt), '\n').len() == pieces(txt, '\n').len(),
        pieces(disabled(txt), '\n')[i] == pieces(txt, '\n')[i],
{
    lemma_disabled_pieces(txt);
    text::lemma_replaced_absent(pieces(txt, '\n')[i], "enabled: true"@, "enabled: false"@);
}

/// A line that switches on, and is no comment, is switched off where it does so first, and
/// what stands before that stays.
pub proof fn lemma_switched_off(txt: Seq<char>, i: int, at: int)
    requires
        0 <= i < pieces(txt, '\n').len(),
        !is_comment(pieces(txt, '\n')[i]),
        found_at(pieces(txt, '\n')[i], "enabled: true"@, at),
        forall|j: int|
            0 <= j < at ==> !#[trigger] found_at(pieces(txt, '\n')[i], "enabled: true"@, j),
    ensures
        pieces(disabled(txt), '\n').len() == pieces(txt, '\n').len(),
        found_at(pieces(disabled(txt), '\n')[i], "enabled: false"@, at),
        pieces(disabled(txt), '\n')[i].take(at) == pieces(txt, '\n')[i].take(at),
{
    lemma_disabled_pieces(txt);
    reveal_strlit("enabled: true");
    let l = pieces(txt, '\n')[i];
    let to = "enabled: false"@;
    text::lemma_replaced_first(l, "enabled: true"@, to, at);
    let rest = replaced(l.skip(at + "enabled: true"@.len()), "enabled: true"@, to);
    let r = l.take(at) + to + rest;
    assert(r.subrange(at, at + to.len()) =~= to);
    assert(r.take(at) =~= l.take(at));
}

/// A comment is a line whose first character that is not white is a number sign.
pub proof fn lemma_comment(white: Seq<char>, rest: Seq<char>)
    requires
        forall|i: int| 0 <= i < white.len() ==> text::white(#[trigger] white[i]),
    ensures
        is_comment(white + seq!['#'] + rest),
        rest.len() > 0 && !text::white(rest[0]) && rest[0] != '#' ==> !is_comment(white + rest),
{
    reveal_strlit("#");
    let a = white + seq!['#'] + rest;
    let at = text::lemma_trimmed(a);
    assert(a[white.len() as int] == '#');
    assert(!text::white('#'));
    lemma_starts_after(a, white, at);
    let t = trimmed(a);
    assert(t[0] == '#');
    assert(t.subrange(0, 1) =~= "#"@);
    if rest.len() > 0 && !text::white(rest[0]) && rest[0] != '#' {
        let b = white + rest;
        let place = text::lemma_trimmed(b);
        assert(b[white.len() as int] == rest[0]);
        lemma_starts_after(b, white, place);
        let u = trimmed(b);
        assert(u[0] == rest[0]);
        if begins(u, "#"@) {
            assert(u.subrange(0, 1)[0] == u[0]);
        }
    }
}

proof fn lemma_starts_after(s: Seq<char>, white: Seq<char>, at: (int, int))
    requires
        white.len() < s.len(),
        forall|i: int| 0 <= i < white.len() ==> text::white(#[trigger] white[i]) && s[i] == white[i],
        !text::white(s[white.len() as int]),
        0 <= at.0 <= at.1 <= s.len(),
        trimmed(s) == s.subrange(at.0, at.1),
        forall|i: int| 0 <= i < at.0 || at.1 <= i < s.len() ==> text::white(#[trigger] s[i]),
        trimmed(s).len() > 0 ==> !text::white(trimmed(s)[0]),
    ensures
        trimmed(s).len() > 0,
        trimmed(s)[0] == s[white.len() as int],
{
    let n = white.len() as int;
    assert(!(0 <= n < at.0 || at.1 <= n < s.len()));
    assert(trimmed(s)[0] == s[at.0]);
    if at.0 < n {
        assert(text::white(white[at.0]));
        assert(s[at.0] == white[at.0]);
    }
}

/// All is well exactly where every line of the diagnosis says so.
pub proof fn lemma_verdict(config: bool, writable: bool, wired: bool, on_path: bool)
    ensures
        (forall|i: int|
            0 <= i < 4 ==> begins(
                #[trigger] diagnosed(config, writable, wired, on_path)[i],
                "[ok] "@,
            )) <==> verdict(config, writable, wired, on_path) == "doctor: all checks passed\n"@,
        diagnosed(config, writable, wired, on_path).len() == 4,
{
    let lines = diagnosed(config, writable, wired, on_path);
    lemma_check_line("config present"@, config);
    lemma_check_line("~/.tsk writable"@, writable);
    lemma_check_line("settings.json wired"@, wired);
    lemma_check_line("tsk in PATH"@, on_path);
    reveal_strlit("doctor: all checks passed\n");
    reveal_strlit("doctor: some checks failed\n");
    assert("doctor: all checks passed\n"@[8] != "doctor: some checks failed\n"@[8]);
    if forall|i: int| 0 <= i < 4 ==> begins(#[trigger] lines[i], "[ok] "@) {
        assert(begins(lines[0], "[ok] "@));
        assert(begins(lines[1], "[ok] "@));
        assert(begins(lines[2], "[ok] "@));
        assert(begins(lines[3], "[ok] "@));
    }
}

/// A check says whether it went well, then what was checked.
pub proof fn lemma_check_line(label: Seq<char>, good: bool)
    ensures
        begins(check_line(label, good), "[ok] "@) <==> good,
        begins(check_line(label, good), "[FAIL] "@) <==> !good,
        check_line(label, good).skip(check_line(label, good).len() - label.len()) == label,
{
    reveal_strlit("[");
    reveal_strlit("ok");
    reveal_strlit("FAIL");
    reveal_strlit("] ");
    reveal_strlit("[ok] ");
    reveal_strlit("[FAIL] ");
    let l = check_line(label, good);
    assert(l.skip(l.len() - label.len()) =~= label);
    if good {
        assert(l.subrange(0, 5) =~= "[ok] "@);
        if begins(l, "[FAIL] "@) {
            assert(l.subrange(0, 7)[1] == l[1]);
        }
    } else {
        assert(l.subrange(0, 7) =~= "[FAIL] "@);
        if begins(l, "[ok] "@) {
            assert(l.subrange(0, 5)[1] == l[1]);
        }
    }
}

} // verus!
