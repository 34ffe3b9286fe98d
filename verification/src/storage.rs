//! Layout of the two storage trees.
//!
//! `~/.tsk/` holds `config.yaml` and per-session machine-private data;
//! `<project>/.tsk/` holds `skeletons/` (project artifacts, gitignorable).

use vstd::prelude::*;
use vstd::utf8::encode_utf8;

use crate::number;
use crate::path;
use crate::path::joined_path;
use crate::text;
use crate::text::{joined, pieces, texts};

verus! {

/// The SHA-1 digest of a byte string.
pub uninterp spec fn sha1_of(bytes: Seq<u8>) -> Seq<u8>;

/// `sha1::Sha1::digest`: the digest of the bytes, 20 bytes long, a function of them alone.
#[verifier::external_body]
fn sha1_digest(bytes: &[u8]) -> (r: Vec<u8>)
    ensures
        r@ == sha1_of(bytes@),
        r@.len() == 20,
{
    <sha1::Sha1 as sha1::Digest>::digest(bytes).to_vec()
}

/// `sha1(bytes)` as lowercase hex.
pub fn sha1_hex(bytes: &[u8]) -> (r: String)
    ensures
        r@ == number::hex_of(sha1_of(bytes@)),
        r@.len() == 40,
{
    let d = sha1_digest(bytes);
    proof {
        number::lemma_hex_len(d@);
    }
    number::hex(&d)
}

/// The digest of a text's UTF-8 form, in hex.
pub open spec fn text_digest(s: Seq<char>) -> Seq<char> {
    number::hex_of(sha1_of(encode_utf8(s)))
}

/// The digest of a text's UTF-8 form, in hex.
pub fn digest_text(s: &str) -> (r: String)
    ensures
        r@ == text_digest(s@),
        r@.len() == 40,
{
    sha1_hex(s.as_bytes())
}

/// `~/.tsk`, or what `TSK_HOME` names; the home directory is `HOME`, then `USERPROFILE`,
/// then the current directory.
pub open spec fn home_path(
    given: Option<Seq<char>>,
    home: Option<Seq<char>>,
    profile: Option<Seq<char>>,
) -> Seq<char> {
    match (given, home, profile) {
        (Some(t), _, _) => t,
        (None, Some(h), _) => joined_path(h, ".tsk"@),
        (None, None, Some(p)) => joined_path(p, ".tsk"@),
        (None, None, None) => joined_path("."@, ".tsk"@),
    }
}

/// `~/.tsk`, overridable via `TSK_HOME` so that tests run hermetic. Takes the values of
/// `TSK_HOME`, `HOME` and `USERPROFILE`.
pub fn tsk_home(given: Option<String>, home: Option<String>, profile: Option<String>) -> (r: String)
    ensures
        r@ == home_path(text::content(given), text::content(home), text::content(profile)),
{
    match (given, home, profile) {
        (Some(t), _, _) => t,
        (None, Some(h), _) => path::join(h.as_str(), ".tsk"),
        (None, None, Some(p)) => path::join(p.as_str(), ".tsk"),
        (None, None, None) => path::join(".", ".tsk"),
    }
}

/// `<tsk_home>/<session_id>`: ledger, snapshot, events.log, ext/.
pub open spec fn session_path(home: Seq<char>, session: Seq<char>) -> Seq<char> {
    joined_path(home, session)
}

/// `<tsk_home>/<session_id>`: ledger, snapshot, events.log, ext/.
pub fn session_dir(home: &str, session_id: &str) -> (r: String)
    ensures
        r@ == session_path(home@, session_id@),
{
    path::join(home, session_id)
}

/// File recording the most recent session, so that `tsk report` (no args) can default
/// to the *current* session rather than scanning everything.
pub fn current_session_file(home: &str) -> (r: String)
    ensures
        r@ == joined_path(home@, "current-session"@),
{
    path::join(home, "current-session")
}

/// The session that a record names, where it names one.
pub open spec fn session_in(record: Option<Seq<char>>) -> Option<Seq<char>> {
    match record {
        Some(s) => if text::trimmed(s).len() > 0 {
            Some(text::trimmed(s))
        } else {
            None
        },
        None => None,
    }
}

/// The session that the record names; a record without one counts as none.
pub fn read_current_session(record: Option<&str>) -> (r: Option<String>)
    ensures
        text::content(r) == session_in(crate::json::shown(record)),
{
    match record {
        Some(s) => {
            let t = text::trim(s);
            if t.as_str().is_empty() {
                None
            } else {
                Some(t)
            }
        },
        None => None,
    }
}

/// Where externalized large outputs land.
pub open spec fn ext_path(home: Seq<char>, session: Seq<char>) -> Seq<char> {
    joined_path(session_path(home, session), "ext"@)
}

/// Externalized large outputs land here.
pub fn ext_dir(home: &str, session_id: &str) -> (r: String)
    ensures
        r@ == ext_path(home@, session_id@),
{
    path::join(session_dir(home, session_id).as_str(), "ext")
}

/// `<project>/.tsk/skeletons`.
pub open spec fn skeleton_path(project: Seq<char>) -> Seq<char> {
    joined_path(joined_path(project, ".tsk"@), "skeletons"@)
}

/// `<project>/.tsk/skeletons`.
pub fn skeleton_dir(project: &str) -> (r: String)
    ensures
        r@ == skeleton_path(project@),
{
    path::join(path::join(project, ".tsk").as_str(), "skeletons")
}

/// The segments that are not a single dot.
pub open spec fn undotted(segments: Seq<Seq<char>>) -> Seq<Seq<char>>
    decreases segments.len(),
{
    if segments.len() == 0 {
        Seq::empty()
    } else if segments.last() == "."@ {
        undotted(segments.drop_last())
    } else {
        undotted(segments.drop_last()).push(segments.last())
    }
}

/// `s` without the slashes at its end.
pub open spec fn unslashed(s: Seq<char>) -> Seq<char>
    decreases s.len(),
{
    if s.len() > 0 && s.last() == '/' {
        unslashed(s.drop_last())
    } else {
        s
    }
}

/// Canonical form: forward slashes, no trailing slash, no `.` segments.
pub open spec fn canonical(p: Seq<char>) -> Seq<char> {
    unslashed(
        joined(undotted(pieces(text::replaced(p, "\\"@, "/"@), '/')), "/"@),
    )
}

/// Canonical path form: forward slashes, no trailing slash, no `.` segments.
/// Feeds the sha1 that names a skeleton, so it must be stable across platforms.
pub fn canonical_path(p: &str) -> (r: String)
    ensures
        r@ == canonical(p@),
{
    proof {
        reveal_strlit("\\");
    }
    let forward = text::replace(p, "\\", "/");
    let segments = text::split(forward.as_str(), '/');
    let mut kept: Vec<String> = Vec::new();
    let mut i: usize = 0;
    while i < segments.len()
        invariant
            i <= segments@.len(),
            texts(kept@) == undotted(texts(segments@).take(i as int)),
        decreases segments@.len() - i,
    {
        let ghost taken = texts(segments@).take(i + 1);
        assert(taken.drop_last() =~= texts(segments@).take(i as int));
        assert(taken.last() == segments@[i as int]@);
        if !text::same(segments[i].as_str(), ".") {
            let ghost done = kept@;
            kept.push(text::copy(segments[i].as_str()));
            assert(texts(kept@) =~= texts(done).push(segments@[i as int]@));
        }
        i = i + 1;
    }
    assert(texts(segments@).take(i as int) =~= texts(segments@));
    let whole = text::join(&kept, "/");
    let v = text::chars(whole.as_str());
    let mut n: usize = v.len();
    assert(v@.take(n as int) =~= v@);
    while n > 0 && v[n - 1] == '/'
        invariant
            n <= v@.len(),
            unslashed(v@.take(n as int)) == unslashed(v@),
        decreases n,
    {
        assert(v@.take(n as int).drop_last() =~= v@.take(n - 1));
        n = n - 1;
    }
    assert(v@.take(n as int) =~= v@.subrange(0, n as int));
    text::slice(&v, 0, n)
}

/// The file name of a skeleton: the digest of the canonical path, then the base name.
pub open spec fn skeleton_name(orig: Seq<char>) -> Seq<char> {
    text_digest(canonical(orig)) + "-"@ + (match path::file_name_of(orig) {
        Some(base) => base,
        None => "unnamed"@,
    }) + ".skeleton.txt"@
}

/// Deterministic skeleton path: `<project>/.tsk/skeletons/<sha1>-<basename>.skeleton.txt`.
/// The same original path always yields the same skeleton (recall anchor).
pub fn derive_skeleton_path(project: &str, orig: &str) -> (r: String)
    ensures
        r@ == joined_path(skeleton_path(project@), skeleton_name(orig@)),
{
    let mut name = digest_text(canonical_path(orig).as_str());
    name.append("-");
    match path::file_name(orig) {
        Some(base) => name.append(base.as_str()),
        None => name.append("unnamed"),
    }
    name.append(".skeleton.txt");
    path::join(skeleton_dir(project).as_str(), name.as_str())
}

proof fn lemma_undotted(segments: Seq<Seq<char>>, c: char)
    requires
        forall|i: int| 0 <= i < segments.len() ==> !(#[trigger] segments[i]).contains(c),
    ensures
        forall|i: int| 0 <= i < undotted(segments).len() ==> #[trigger] undotted(segments)[i] != "."@,
        forall|i: int|
            0 <= i < undotted(segments).len() ==> !(#[trigger] undotted(segments)[i]).contains(c),
    decreases segments.len(),
{
    if segments.len() > 0 {
        let before = segments.drop_last();
        assert forall|i: int| 0 <= i < before.len() implies !(#[trigger] before[i]).contains(
            c,
        ) by {
            assert(before[i] == segments[i]);
        }
        lemma_undotted(before, c);
        let r = undotted(segments);
        let kept = undotted(before);
        assert(!segments[segments.len() - 1].contains(c));
        assert forall|i: int| 0 <= i < r.len() implies #[trigger] r[i] != "."@ && !r[i].contains(
            c,
        ) by {
            if i < kept.len() {
                assert(r[i] == kept[i]);
            } else {
                assert(r[i] == segments.last());
            }
        }
    }
}

proof fn lemma_undotted_none(segments: Seq<Seq<char>>)
    requires
        forall|i: int| 0 <= i < segments.len() ==> #[trigger] segments[i] != "."@,
    ensures
        undotted(segments) == segments,
    decreases segments.len(),
{
    if segments.len() > 0 {
        assert(segments[segments.len() - 1] != "."@);
        lemma_undotted_none(segments.drop_last());
        assert(segments.drop_last().push(segments.last()) =~= segments);
    }
}

proof fn lemma_unslashed(s: Seq<char>)
    ensures
        unslashed(s).len() > 0 ==> unslashed(s).last() != '/',
        unslashed(s).len() <= s.len(),
        unslashed(s) == s.take(unslashed(s).len() as int),
        pieces(unslashed(s), '/').len() <= pieces(s, '/').len(),
        pieces(unslashed(s), '/') == pieces(s, '/').take(pieces(unslashed(s), '/').len() as int),
    decreases s.len(),
{
    if s.len() > 0 && s.last() == '/' {
        let t = s.drop_last();
        lemma_unslashed(t);
        assert(t.take(unslashed(t).len() as int) =~= s.take(unslashed(t).len() as int));
        let n = pieces(unslashed(t), '/').len() as int;
        assert(pieces(s, '/').take(n) =~= pieces(t, '/').take(n));
    } else {
        assert(s.take(s.len() as int) =~= s);
        assert(pieces(s, '/').take(pieces(s, '/').len() as int) =~= pieces(s, '/'));
    }
}

proof fn lemma_joined_without(parts: Seq<Seq<char>>, sep: char, c: char)
    requires
        c != sep,
        forall|i: int| 0 <= i < parts.len() ==> !(#[trigger] parts[i]).contains(c),
    ensures
        !joined(parts, seq![sep]).contains(c),
    decreases parts.len(),
{
    if parts.len() > 1 {
        let before = parts.drop_last();
        assert forall|i: int| 0 <= i < before.len() implies !(#[trigger] before[i]).contains(
            c,
        ) by {
            assert(before[i] == parts[i]);
        }
        lemma_joined_without(before, sep, c);
        let j = joined(before, seq![sep]);
        let s = joined(parts, seq![sep]);
        assert(s == j + seq![sep] + parts.last());
        if s.contains(c) {
            let i = s.index_of(c);
            if i < j.len() {
                assert(j[i] == c);
            } else if i > j.len() {
                assert(parts[parts.len() - 1][i - j.len() - 1] == c);
            }
        }
    }
}

proof fn lemma_pieces_without(s: Seq<char>, c: char)
    requires
        !s.contains(c),
    ensures
        forall|i: int| 0 <= i < pieces(s, '/').len() ==> !(#[trigger] pieces(s, '/')[i]).contains(c),
    decreases s.len(),
{
    if s.len() > 0 {
        let before = pieces(s.drop_last(), '/');
        assert(!s.drop_last().contains(c)) by {
            if s.drop_last().contains(c) {
                let i = s.drop_last().index_of(c);
                assert(s[i] == c);
            }
        }
        lemma_pieces_without(s.drop_last(), c);
        text::lemma_pieces_nonempty(s.drop_last(), '/');
        assert(s.last() != c) by {
            assert(s[s.len() - 1] == s.last());
        }
        let after = pieces(s, '/');
        assert forall|i: int| 0 <= i < after.len() implies !(#[trigger] after[i]).contains(c) by {
            if i < before.len() - 1 || s.last() == '/' {
                if i < before.len() {
                    assert(after[i] == before[i]);
                }
            } else {
                let p = before[before.len() - 1];
                assert(after[i] == p.push(s.last()));
                if p.push(s.last()).contains(c) {
                    let j = p.push(s.last()).index_of(c);
                    assert(p[j] == c);
                }
            }
        }
    }
}

/// A canonical path has no backslash, no trailing slash and no `.` segment.
pub proof fn lemma_canonical_shape(p: Seq<char>)
    ensures
        !canonical(p).contains('\\'),
        canonical(p).len() > 0 ==> canonical(p).last() != '/',
        forall|i: int|
            0 <= i < pieces(canonical(p), '/').len() ==> #[trigger] pieces(canonical(p), '/')[i]
                != "."@,
{
    reveal_strlit("\\");
    reveal_strlit("/");
    reveal_strlit(".");
    assert("\\"@ =~= seq!['\\']);
    assert("/"@ =~= seq!['/']);
    let forward = text::replaced(p, "\\"@, "/"@);
    text::lemma_replaced_all(p, '\\', '/');
    let segments = pieces(forward, '/');
    lemma_pieces_without(forward, '\\');
    text::lemma_pieces_clean(forward, '/');
    lemma_undotted(segments, '\\');
    lemma_undotted(segments, '/');
    let kept = undotted(segments);
    let whole = joined(kept, "/"@);
    lemma_joined_without(kept, '/', '\\');
    lemma_unslashed(whole);
    let c = canonical(p);
    assert(!c.contains('\\')) by {
        if c.contains('\\') {
            let i = c.index_of('\\');
            assert(whole[i] == '\\');
        }
    }
    if kept.len() > 0 {
        text::lemma_pieces_joined(kept, '/');
        assert forall|i: int| 0 <= i < pieces(c, '/').len() implies #[trigger] pieces(c, '/')[i]
            != "."@ by {
            assert(pieces(c, '/')[i] == kept[i]);
        }
    } else {
        assert(whole =~= Seq::empty());
        assert(pieces(c, '/') =~= seq![Seq::empty()]);
        assert("."@.len() == 1);
    }
}

/// Making a canonical path canonical changes nothing, so it keeps naming the same skeleton.
pub proof fn lemma_canonical_stable(p: Seq<char>)
    ensures
        canonical(canonical(p)) == canonical(p),
{
    reveal_strlit("\\");
    reveal_strlit("/");
    assert("\\"@ =~= seq!['\\']);
    assert("/"@ =~= seq!['/']);
    let c = canonical(p);
    lemma_canonical_shape(p);
    text::lemma_replaced_none(c, '\\', "/"@);
    lemma_undotted_none(pieces(c, '/'));
    text::lemma_join_pieces(c, '/');
}

/// A file and what goes into it.
#[derive(Debug, PartialEq)]
pub struct FileWrite {
    pub path: String,
    pub text: String,
}

impl FileWrite {
    /// Where, and what.
    pub open spec fn says(self) -> (Seq<char>, Seq<char>) {
        (self.path@, self.text@)
    }
}

proof fn lemma_undotted_concat(a: Seq<Seq<char>>, b: Seq<Seq<char>>)
    ensures
        undotted(a + b) == undotted(a) + undotted(b),
    decreases b.len(),
{
    if b.len() == 0 {
        assert(a + b =~= a);
        assert(undotted(a) + undotted(b) =~= undotted(a));
    } else {
        lemma_undotted_concat(a, b.drop_last());
        assert((a + b).drop_last() =~= a + b.drop_last());
        assert((a + b).last() == b.last());
        assert(undotted(a + b) =~= undotted(a) + undotted(b));
    }
}

/// Backslashes count as slashes, a segment that is a dot counts for nothing, and neither does
/// a slash at the end: paths that differ in these alone are kept under one name.
#[verifier::spinoff_prover]
#[verifier::rlimit(30)]
pub proof fn lemma_canonical_same(a: Seq<char>, b: Seq<char>)
    requires
        !a.contains('\\'),
        !b.contains('\\'),
    ensures
        canonical(a + seq!['\\'] + b) == canonical(a + seq!['/'] + b),
        canonical(a + seq!['/', '.', '/'] + b) == canonical(a + seq!['/'] + b),
        canonical(a + seq!['/']) == canonical(a),
{
    reveal_strlit("\\");
    reveal_strlit("/");
    reveal_strlit(".");
    assert("\\"@ =~= seq!['\\']);
    assert("/"@ =~= seq!['/']);
    assert("."@ =~= seq!['.']);
    let plain = a + seq!['/'] + b;
    let back = a + seq!['\\'] + b;
    let dotted = a + seq!['/', '.', '/'] + b;
    let ended = a + seq!['/'];
    lemma_slashes_only(plain, a, b);
    lemma_slashes_only(ended, a, Seq::empty());
    assert(!dotted.contains('\\')) by {
        if dotted.contains('\\') {
            let i = dotted.index_of('\\');
            if i < a.len() {
                assert(a[i] == '\\');
            } else if i >= a.len() + 3 {
                assert(b[i - a.len() - 3] == '\\');
            }
        }
    }
    text::lemma_replaced_none(plain, '\\', "/"@);
    text::lemma_replaced_none(dotted, '\\', "/"@);
    text::lemma_replaced_none(ended, '\\', "/"@);
    text::lemma_replaced_none(a, '\\', "/"@);
    text::lemma_replaced_each(back, '\\', '/');
    assert(text::replaced(back, "\\"@, "/"@) =~= plain) by {
        assert forall|i: int| 0 <= i < back.len() implies text::replaced(back, "\\"@, "/"@)[i]
            == plain[i] by {
            if i < a.len() {
                assert(a.contains(a[i]));
            } else if i > a.len() {
                assert(b.contains(b[i - a.len() - 1]));
            }
        }
    }
    let dot = seq!['.'];
    let x = pieces(a, '/');
    let y = pieces(b, '/');
    text::lemma_pieces_concat(a, b, '/');
    text::lemma_pieces_concat(a + seq!['/'] + dot, b, '/');
    text::lemma_pieces_concat(a, dot, '/');
    text::lemma_pieces_plain(dot, '/');
    assert(dotted =~= a + seq!['/'] + dot + seq!['/'] + b);
    assert(pieces(dotted, '/') == (x + seq![dot]) + y);
    lemma_undotted_concat(x, y);
    lemma_undotted_concat(x + seq![dot], y);
    lemma_undotted_concat(x, seq![dot]);
    assert(undotted(seq![dot]) =~= Seq::empty()) by {
        reveal_with_fuel(undotted, 2);
        assert(seq![dot].drop_last() =~= Seq::empty());
        assert(seq![dot].last() == dot);
    }
    assert(undotted(x) + Seq::empty() =~= undotted(x));
    let none = Seq::<char>::empty();
    text::lemma_pieces_concat(a, none, '/');
    text::lemma_pieces_plain(none, '/');
    assert(ended =~= a + seq!['/'] + none);
    assert(pieces(ended, '/') =~= x.push(none));
    assert(x.push(none).drop_last() =~= x);
    assert(none.len() != dot.len());
    let u = undotted(x);
    assert(undotted(x.push(none)) == u.push(none));
    assert(u.push(none).drop_last() =~= u);
    if u.len() == 0 {
        assert(joined(u.push(none), "/"@) =~= none);
        assert(joined(u, "/"@) =~= none);
    } else {
        let j = joined(u, "/"@);
        assert(joined(u.push(none), "/"@) =~= j + "/"@);
        assert((j + "/"@).last() == '/');
        assert((j + "/"@).drop_last() =~= j);
    }
}

proof fn lemma_slashes_only(s: Seq<char>, a: Seq<char>, b: Seq<char>)
    requires
        s == a + seq!['/'] + b,
        !a.contains('\\'),
        !b.contains('\\'),
    ensures
        !s.contains('\\'),
{
    if s.contains('\\') {
        let i = s.index_of('\\');
        if i < a.len() {
            assert(a[i] == '\\');
        } else if i > a.len() {
            assert(b[i - a.len() - 1] == '\\');
        }
    }
}

/// A path without backslashes, dots as segments and a slash at its end is canonical.
pub proof fn lemma_canonical_kept(p: Seq<char>)
    requires
        !p.contains('\\'),
        p.len() > 0 ==> p.last() != '/',
        forall|i: int| 0 <= i < pieces(p, '/').len() ==> #[trigger] pieces(p, '/')[i] != "."@,
    ensures
        canonical(p) == p,
{
    reveal_strlit("\\");
    reveal_strlit("/");
    assert("\\"@ =~= seq!['\\']);
    assert("/"@ =~= seq!['/']);
    text::lemma_replaced_none(p, '\\', "/"@);
    lemma_undotted_none(pieces(p, '/'));
    text::lemma_join_pieces(p, '/');
}

/// What TSK keeps stands where it was told; else in the home directory; else in the profile;
/// else where it runs. Whatever comes first decides.
pub proof fn lemma_home(
    given: Option<Seq<char>>,
    home: Option<Seq<char>>,
    profile: Option<Seq<char>>,
    t: Seq<char>,
)
    ensures
        home_path(Some(t), home, profile) == t,
        home_path(None, Some(t), profile) == joined_path(t, ".tsk"@),
        home_path(None, None, Some(t)) == joined_path(t, ".tsk"@),
        home_path(None, None, None) == "./.tsk"@,
{
    reveal_strlit(".");
    reveal_strlit("/");
    reveal_strlit(".tsk");
    reveal_strlit("./.tsk");
    assert("."@ + "/"@ + ".tsk"@ =~= "./.tsk"@);
}

/// A skeleton's name shows the digest of the canonical path, then the name of the file.
pub proof fn lemma_skeleton_name(orig: Seq<char>, other: Seq<char>, base: Seq<char>)
    requires
        path::file_name_of(orig) == Some(base),
    ensures
        text::begins(skeleton_name(orig), text_digest(canonical(orig)) + "-"@ + base),
        canonical(other) == canonical(orig) && path::file_name_of(other) == Some(base)
            ==> skeleton_name(other) == skeleton_name(orig),
        skeleton_name(orig).len() == text_digest(canonical(orig)).len() + base.len() + 14,
{
    reveal_strlit("-");
    reveal_strlit(".skeleton.txt");
    let n = skeleton_name(orig);
    let front = text_digest(canonical(orig)) + "-"@ + base;
    assert(n.subrange(0, front.len() as int) =~= front);
}

/// White space round the name in the record does not matter, and a record of nothing else
/// names no session.
pub proof fn lemma_session_in(s: Seq<char>)
    ensures
        session_in(Some(s)) matches Some(name) ==> name.len() > 0 && !text::white(name[0])
            && !text::white(name.last()) && text::holds(s, name) && session_in(Some(name)) == Some(
            name,
        ),
        session_in(Some(s)) is None <==> forall|i: int|
            0 <= i < s.len() ==> text::white(#[trigger] s[i]),
        session_in(None) is None,
{
    let at = text::lemma_trimmed(s);
    let t = text::trimmed(s);
    if t.len() > 0 {
        text::lemma_trimmed_same(t);
        assert(text::found_at(s, t, at.0));
        assert(t[0] == s[at.0]);
    }
}

/// What a session keeps is under that session and under no other.
#[verifier::spinoff_prover]
#[verifier::rlimit(30)]
pub proof fn lemma_sessions_apart(
    home: Seq<char>,
    session: Seq<char>,
    other: Seq<char>,
    name: Seq<char>,
)
    requires
        home.len() > 0,
        home.last() != '/',
        session.len() > 0,
        session != "."@,
        !session.contains('/'),
        other.len() > 0,
        other != "."@,
        !other.contains('/'),
        name.len() > 0,
        name != "."@,
        !name.contains('/'),
    ensures
        path::components_of(ext_path(home, session)) == path::components_of(home).push(
            session,
        ).push("ext"@),
        path::under(joined_path(ext_path(home, session), name), ext_path(home, other)) <==> session
            == other,
        path::under(ext_path(home, session), session_path(home, session)),
{
    reveal_strlit("ext");
    reveal_strlit(".");
    let e = "ext"@;
    assert(!e.contains('/')) by {
        if e.contains('/') {
            let i = e.index_of('/');
            assert(e[i] == '/');
        }
    }
    path::lemma_child(home, session);
    path::lemma_child(home, other);
    lemma_no_slash_end(home, session);
    lemma_no_slash_end(home, other);
    let a = session_path(home, session);
    let b = session_path(home, other);
    path::lemma_child(a, e);
    path::lemma_child(b, e);
    path::lemma_child_under(a, e);
    lemma_no_slash_end(a, e);
    let x = ext_path(home, session);
    path::lemma_child(x, name);
    let n = path::components_of(home).len() as int;
    let c = path::components_of(joined_path(x, name));
    let d = path::components_of(ext_path(home, other));
    assert(c[n] == session);
    assert(d[n] == other);
    if session == other {
        path::lemma_child_under(x, name);
    } else if path::under(joined_path(x, name), ext_path(home, other)) {
        assert(c.take(d.len() as int)[n] == c[n]);
    }
}

proof fn lemma_no_slash_end(dir: Seq<char>, name: Seq<char>)
    requires
        name.len() > 0,
        !name.contains('/'),
    ensures
        joined_path(dir, name).len() > 0,
        joined_path(dir, name).last() != '/',
{
    path::lemma_joined_path(dir, name);
    assert(name[0] != '/') by {
        if name[0] == '/' {
            assert(name.contains('/'));
        }
    }
    let j = joined_path(dir, name);
    assert(j.skip(j.len() - name.len()).last() == name.last());
    assert(name.contains(name[name.len() - 1]));
}

} // verus!
