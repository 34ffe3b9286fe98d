//! One-way ledger: append-only, single writer, no read-back loop. What one line says.

use vstd::prelude::*;

use crate::json;
use crate::json::quoted;
use crate::number;
use crate::number::decimal_of;
use crate::text;

verus! {

/// The word that marks a rewrite.
pub fn rewrite() -> (r: &'static str)
    ensures
        r@ == "rewrite"@,
{
    "rewrite"
}

/// The word that marks a retrieval.
pub fn retrieval() -> (r: &'static str)
    ensures
        r@ == "retrieval"@,
{
    "retrieval"
}

/// The word that marks an externalized file.
pub fn externalize() -> (r: &'static str)
    ensures
        r@ == "externalize"@,
{
    "externalize"
}

/// The word that marks an injection.
pub fn inject() -> (r: &'static str)
    ensures
        r@ == "inject"@,
{
    "inject"
}

/// The word that marks a sandbox run.
pub fn sandbox() -> (r: &'static str)
    ensures
        r@ == "sandbox"@,
{
    "sandbox"
}

/// A `Read` that was pointed at a smaller file.
#[derive(Debug, PartialEq)]
pub struct RewriteEntry {
    pub ts: u64,
    pub session: String,
    pub tool: String,
    pub tu_id: String,
    pub strategy: String,
    pub orig_bytes: usize,
    pub new_bytes: usize,
    pub saved: usize,
}

/// A `Read` that asked for the file itself.
#[derive(Debug, PartialEq)]
pub struct RetrievalEntry {
    pub ts: u64,
    pub session: String,
    pub tool: String,
    /// Why the escape hatch was taken (e.g. `escape_hatch_offset_limit`).
    pub reason: String,
    pub orig_bytes: Option<usize>,
}

/// A `Read` that was pointed at a pointer file.
#[derive(Debug, PartialEq)]
pub struct ExternalizeEntry {
    pub ts: u64,
    pub session: String,
    pub tool: String,
    pub orig_bytes: usize,
    pub new_bytes: usize,
}

/// A text that was put into the context.
#[derive(Debug, PartialEq)]
pub struct InjectEntry {
    pub ts: u64,
    pub session: String,
    pub source: String,
    pub bytes: usize,
}

/// A file that was replaced by the conclusions of a script.
#[derive(Debug, PartialEq)]
pub struct SandboxEntry {
    pub ts: u64,
    pub session: String,
    pub tool: String,
    pub orig_bytes: usize,
    pub new_bytes: usize,
    pub saved: usize,
}

/// One line of the ledger.
#[derive(Debug, PartialEq)]
pub enum Entry {
    Rewrite(RewriteEntry),
    Retrieval(RetrievalEntry),
    Externalize(ExternalizeEntry),
    Inject(InjectEntry),
    Sandbox(SandboxEntry),
}

/// What an entry records, with strings as texts.
pub enum Record {
    Rewrite {
        ts: u64,
        session: Seq<char>,
        tool: Seq<char>,
        tu_id: Seq<char>,
        strategy: Seq<char>,
        orig_bytes: usize,
        new_bytes: usize,
        saved: usize,
    },
    Retrieval {
        ts: u64,
        session: Seq<char>,
        tool: Seq<char>,
        reason: Seq<char>,
        size: Option<usize>,
    },
    Externalize {
        ts: u64,
        session: Seq<char>,
        tool: Seq<char>,
        orig_bytes: usize,
        new_bytes: usize,
    },
    Inject { ts: u64, session: Seq<char>, source: Seq<char>, bytes: usize },
    Sandbox {
        ts: u64,
        session: Seq<char>,
        tool: Seq<char>,
        orig_bytes: usize,
        new_bytes: usize,
        saved: usize,
    },
}

impl Entry {
    /// What the entry records.
    pub open spec fn record(self) -> Record {
        match self {
            Entry::Rewrite(x) => Record::Rewrite {
                ts: x.ts,
                session: x.session@,
                tool: x.tool@,
                tu_id: x.tu_id@,
                strategy: x.strategy@,
                orig_bytes: x.orig_bytes,
                new_bytes: x.new_bytes,
                saved: x.saved,
            },
            Entry::Retrieval(x) => Record::Retrieval {
                ts: x.ts,
                session: x.session@,
                tool: x.tool@,
                reason: x.reason@,
                size: x.orig_bytes,
            },
            Entry::Externalize(x) => Record::Externalize {
                ts: x.ts,
                session: x.session@,
                tool: x.tool@,
                orig_bytes: x.orig_bytes,
                new_bytes: x.new_bytes,
            },
            Entry::Inject(x) => Record::Inject {
                ts: x.ts,
                session: x.session@,
                source: x.source@,
                bytes: x.bytes,
            },
            Entry::Sandbox(x) => Record::Sandbox {
                ts: x.ts,
                session: x.session@,
                tool: x.tool@,
                orig_bytes: x.orig_bytes,
                new_bytes: x.new_bytes,
                saved: x.saved,
            },
        }
    }
}

/// What the entries record.
pub open spec fn records(entries: Seq<Entry>) -> Seq<Record> {
    entries.map_values(|e: Entry| e.record())
}

/// The fields that every line begins with.
pub open spec fn line_start(kind: Seq<char>, ts: u64, session: Seq<char>) -> Seq<char> {
    "{\"kind\":\""@ + kind + "\",\"ts\":"@ + decimal_of(ts as nat) + ",\"session\":"@ + quoted(session)
}

/// The line that records an entry: one JSON object, the fields in a fixed order.
pub open spec fn line_of(r: Record) -> Seq<char> {
    match r {
        Record::Rewrite { ts, session, tool, tu_id, strategy, orig_bytes, new_bytes, saved } => {
            line_start("rewrite"@, ts, session) + ",\"tool\":"@ + quoted(tool) + ",\"tu_id\":"@
                + quoted(tu_id) + ",\"strategy\":"@ + quoted(strategy) + ",\"orig_bytes\":"@
                + decimal_of(orig_bytes as nat) + ",\"new_bytes\":"@ + decimal_of(new_bytes as nat)
                + ",\"saved\":"@ + decimal_of(saved as nat) + "}"@
        },
        Record::Retrieval { ts, session, tool, reason, size } => {
            line_start("retrieval"@, ts, session) + ",\"tool\":"@ + quoted(tool) + ",\"reason\":"@
                + quoted(reason) + (match size {
                Some(n) => ",\"orig_bytes\":"@ + decimal_of(n as nat) + "}"@,
                None => "}"@,
            })
        },
        Record::Externalize { ts, session, tool, orig_bytes, new_bytes } => {
            line_start("externalize"@, ts, session) + ",\"tool\":"@ + quoted(tool)
                + ",\"orig_bytes\":"@ + decimal_of(orig_bytes as nat) + ",\"new_bytes\":"@
                + decimal_of(new_bytes as nat) + "}"@
        },
        Record::Inject { ts, session, source, bytes } => {
            line_start("inject"@, ts, session) + ",\"source\":"@ + quoted(source) + ",\"bytes\":"@
                + decimal_of(bytes as nat) + "}"@
        },
        Record::Sandbox { ts, session, tool, orig_bytes, new_bytes, saved } => {
            line_start("sandbox"@, ts, session) + ",\"tool\":"@ + quoted(tool)
                + ",\"orig_bytes\":"@ + decimal_of(orig_bytes as nat) + ",\"new_bytes\":"@
                + decimal_of(new_bytes as nat) + ",\"saved\":"@ + decimal_of(saved as nat) + "}"@
        },
    }
}

fn start(kind: &str, ts: u64, session: &str) -> (r: String)
    ensures
        r@ == line_start(kind@, ts, session@),
{
    let mut s = text::copy("{\"kind\":\"");
    s.append(kind);
    s.append("\",\"ts\":");
    s.append(number::decimal(ts).as_str());
    s.append(",\"session\":");
    s.append(json::quote(session).as_str());
    s
}

fn add_text(s: &mut String, key: &str, value: &str)
    ensures
        final(s)@ == old(s)@ + key@ + quoted(value@),
{
    s.append(key);
    s.append(json::quote(value).as_str());
}

fn add_number(s: &mut String, key: &str, n: usize)
    ensures
        final(s)@ == old(s)@ + key@ + decimal_of(n as nat),
{
    s.append(key);
    s.append(number::decimal(n as u64).as_str());
}

/// Does `s` show where the injection that `r` records came from? Holds of other records.
pub open spec fn shows_source(s: Seq<char>, r: Record) -> bool {
    match r {
        Record::Inject { source, .. } => json::plain(source) ==> text::holds(s, source),
        _ => true,
    }
}

/// The line that the ledger keeps of an entry, without the line feed behind it.
pub fn line(e: &Entry) -> (r: String)
    ensures
        r@ == line_of(e.record()),
        shows_source(r@, e.record()),
{
    match e {
        Entry::Rewrite(x) => {
            let mut s = start(rewrite(), x.ts, x.session.as_str());
            add_text(&mut s, ",\"tool\":", x.tool.as_str());
            add_text(&mut s, ",\"tu_id\":", x.tu_id.as_str());
            add_text(&mut s, ",\"strategy\":", x.strategy.as_str());
            add_number(&mut s, ",\"orig_bytes\":", x.orig_bytes);
            add_number(&mut s, ",\"new_bytes\":", x.new_bytes);
            add_number(&mut s, ",\"saved\":", x.saved);
            s.append("}");
            s
        },
        Entry::Retrieval(x) => {
            let mut s = start(retrieval(), x.ts, x.session.as_str());
            add_text(&mut s, ",\"tool\":", x.tool.as_str());
            add_text(&mut s, ",\"reason\":", x.reason.as_str());
            let mut rest = String::new();
            if let Some(n) = x.orig_bytes {
                add_number(&mut rest, ",\"orig_bytes\":", n);
                assert(rest@ =~= ",\"orig_bytes\":"@ + decimal_of(n as nat));
            }
            rest.append("}");
            s.append(rest.as_str());
            assert(x.orig_bytes is None ==> rest@ =~= "}"@);
            s
        },
        Entry::Externalize(x) => {
            let mut s = start(externalize(), x.ts, x.session.as_str());
            add_text(&mut s, ",\"tool\":", x.tool.as_str());
            add_number(&mut s, ",\"orig_bytes\":", x.orig_bytes);
            add_number(&mut s, ",\"new_bytes\":", x.new_bytes);
            s.append("}");
            s
        },
        Entry::Inject(x) => {
            let mut s = start(inject(), x.ts, x.session.as_str());
            s.append(",\"source\":");
            let ghost before = s@;
            s.append(json::quote(x.source.as_str()).as_str());
            add_number(&mut s, ",\"bytes\":", x.bytes);
            s.append("}");
            proof {
                if json::plain(x.source@) {
                    let at = before.len() as int + 1;
                    assert(s@.subrange(at, at + x.source@.len()) =~= x.source@);
                    assert(text::found_at(s@, x.source@, at));
                }
            }
            s
        },
        Entry::Sandbox(x) => {
            let mut s = start(sandbox(), x.ts, x.session.as_str());
            add_text(&mut s, ",\"tool\":", x.tool.as_str());
            add_number(&mut s, ",\"orig_bytes\":", x.orig_bytes);
            add_number(&mut s, ",\"new_bytes\":", x.new_bytes);
            add_number(&mut s, ",\"saved\":", x.saved);
            s.append("}");
            s
        },
    }
}

/// The text that entries add to the ledger: a line each.
pub open spec fn lines_of(rs: Seq<Record>) -> Seq<char>
    decreases rs.len(),
{
    if rs.len() == 0 {
        Seq::empty()
    } else {
        lines_of(rs.drop_last()) + line_of(rs.last()) + "\n"@
    }
}

/// The text that entries add to the ledger: a line each.
pub fn append(entries: &Vec<Entry>) -> (r: String)
    ensures
        r@ == lines_of(records(entries@)),
        forall|i: int| 0 <= i < entries@.len() ==> shows_source(r@, (#[trigger] entries@[i]).record()),
{
    let mut out = String::new();
    let ghost all = records(entries@);
    let mut i: usize = 0;
    while i < entries.len()
        invariant
            i <= entries@.len(),
            all == records(entries@),
            out@ == lines_of(all.take(i as int)),
            forall|k: int| 0 <= k < i ==> shows_source(out@, (#[trigger] entries@[k]).record()),
        decreases entries@.len() - i,
    {
        proof {
            assert(all.take(i + 1).drop_last() =~= all.take(i as int));
            assert(all.take(i + 1).last() == entries@[i as int].record());
        }
        let ghost before = out@;
        let one = line(&entries[i]);
        out.append(one.as_str());
        out.append("\n");
        proof {
            assert forall|k: int| 0 <= k < i + 1 implies shows_source(
                out@,
                (#[trigger] entries@[k]).record(),
            ) by {
                if let Record::Inject { source, .. } = entries@[k].record() {
                    if json::plain(source) {
                        if k < i {
                            text::lemma_has_concat(before, one@ + "\n"@, source);
                            assert(out@ =~= before + (one@ + "\n"@));
                        } else {
                            text::lemma_has_concat(one@, "\n"@, source);
                            text::lemma_has_concat(before, one@ + "\n"@, source);
                            assert(out@ =~= before + (one@ + "\n"@));
                        }
                    }
                }
            }
        }
        i = i + 1;
    }
    assert(all.take(i as int) =~= all);
    out
}

/// Entries one behind the other add their lines one behind the other; one entry adds its line
/// and a line feed.
pub proof fn lemma_lines_add(a: Seq<Record>, b: Seq<Record>)
    ensures
        lines_of(a + b) == lines_of(a) + lines_of(b),
        b.len() == 1 ==> lines_of(b) == line_of(b[0]) + "\n"@,
    decreases b.len(),
{
    if b.len() == 0 {
        assert(a + b =~= a);
        assert(lines_of(a) + lines_of(b) =~= lines_of(a));
    } else {
        lemma_lines_add(a, b.drop_last());
        assert((a + b).drop_last() =~= a + b.drop_last());
        assert((a + b).last() == b.last());
        assert(lines_of(a + b) =~= lines_of(a) + lines_of(b));
        if b.len() == 1 {
            assert(lines_of(b.drop_last()) =~= Seq::empty());
            assert(lines_of(b) =~= line_of(b[0]) + "\n"@);
        }
    }
}

/// A line says what kind of entry it is, when it was made and for which session, and shows
/// every number of the entry under its name.
pub proof fn lemma_line_shows(r: Record)
    ensures
        match r {
            Record::Rewrite { ts, session, tool, tu_id, strategy, orig_bytes, new_bytes, saved } => {
                &&& text::begins(
                    line_of(r),
                    "{\"kind\":\""@ + "rewrite"@ + "\",\"ts\":"@ + decimal_of(ts as nat)
                        + ",\"session\":"@ + quoted(session),
                )
                &&& text::holds(line_of(r), ",\"tool\":"@ + quoted(tool))
                &&& text::holds(line_of(r), ",\"tu_id\":"@ + quoted(tu_id))
                &&& text::holds(line_of(r), ",\"strategy\":"@ + quoted(strategy))
                &&& text::holds(line_of(r), ",\"orig_bytes\":"@ + decimal_of(orig_bytes as nat))
                &&& text::holds(line_of(r), ",\"new_bytes\":"@ + decimal_of(new_bytes as nat))
                &&& text::holds(line_of(r), ",\"saved\":"@ + decimal_of(saved as nat))
            },
            Record::Retrieval { ts, session, tool, reason, size } => {
                &&& text::begins(
                    line_of(r),
                    "{\"kind\":\""@ + "retrieval"@ + "\",\"ts\":"@ + decimal_of(ts as nat)
                        + ",\"session\":"@ + quoted(session),
                )
                &&& text::holds(line_of(r), ",\"tool\":"@ + quoted(tool))
                &&& text::holds(line_of(r), ",\"reason\":"@ + quoted(reason))
                &&& size matches Some(n) ==> text::holds(
                    line_of(r),
                    ",\"orig_bytes\":"@ + decimal_of(n as nat) + "}"@,
                )
            },
            Record::Externalize { ts, session, tool, orig_bytes, new_bytes } => {
                &&& text::begins(
                    line_of(r),
                    "{\"kind\":\""@ + "externalize"@ + "\",\"ts\":"@ + decimal_of(ts as nat)
                        + ",\"session\":"@ + quoted(session),
                )
                &&& text::holds(line_of(r), ",\"tool\":"@ + quoted(tool))
                &&& text::holds(line_of(r), ",\"orig_bytes\":"@ + decimal_of(orig_bytes as nat))
                &&& text::holds(line_of(r), ",\"new_bytes\":"@ + decimal_of(new_bytes as nat))
            },
            Record::Inject { ts, session, source, bytes } => {
                &&& text::begins(
                    line_of(r),
                    "{\"kind\":\""@ + "inject"@ + "\",\"ts\":"@ + decimal_of(ts as nat)
                        + ",\"session\":"@ + quoted(session),
                )
                &&& text::holds(line_of(r), ",\"source\":"@ + quoted(source))
                &&& text::holds(line_of(r), ",\"bytes\":"@ + decimal_of(bytes as nat))
            },
            Record::Sandbox { ts, session, tool, orig_bytes, new_bytes, saved } => {
                &&& text::begins(
                    line_of(r),
                    "{\"kind\":\""@ + "sandbox"@ + "\",\"ts\":"@ + decimal_of(ts as nat)
                        + ",\"session\":"@ + quoted(session),
                )
                &&& text::holds(line_of(r), ",\"tool\":"@ + quoted(tool))
                &&& text::holds(line_of(r), ",\"orig_bytes\":"@ + decimal_of(orig_bytes as nat))
                &&& text::holds(line_of(r), ",\"new_bytes\":"@ + decimal_of(new_bytes as nat))
                &&& text::holds(line_of(r), ",\"saved\":"@ + decimal_of(saved as nat))
            },
        },
{
    let t = line_of(r);
    assert(t.subrange(0, t.len() as int) =~= t);
    match r {
        Record::Rewrite { ts, session, tool, tu_id, strategy, orig_bytes, new_bytes, saved } => {
            let s0 = line_start("rewrite"@, ts, session);
            let s1 = s0 + ",\"tool\":"@ + quoted(tool);
            let s2 = s1 + ",\"tu_id\":"@ + quoted(tu_id);
            let s3 = s2 + ",\"strategy\":"@ + quoted(strategy);
            let s4 = s3 + ",\"orig_bytes\":"@ + decimal_of(orig_bytes as nat);
            let s5 = s4 + ",\"new_bytes\":"@ + decimal_of(new_bytes as nat);
            let s6 = s5 + ",\"saved\":"@ + decimal_of(saved as nat);
            text::lemma_begins_first(t, s6, "}"@);
            lemma_field_shown(t, s5, ",\"saved\":"@, decimal_of(saved as nat));
            lemma_field_shown(t, s4, ",\"new_bytes\":"@, decimal_of(new_bytes as nat));
            lemma_field_shown(t, s3, ",\"orig_bytes\":"@, decimal_of(orig_bytes as nat));
            lemma_field_shown(t, s2, ",\"strategy\":"@, quoted(strategy));
            lemma_field_shown(t, s1, ",\"tu_id\":"@, quoted(tu_id));
            lemma_field_shown(t, s0, ",\"tool\":"@, quoted(tool));
        },
        Record::Retrieval { ts, session, tool, reason, size } => {
            let s0 = line_start("retrieval"@, ts, session);
            let s1 = s0 + ",\"tool\":"@ + quoted(tool);
            let s2 = s1 + ",\"reason\":"@ + quoted(reason);
            let rest = match size {
                Some(n) => ",\"orig_bytes\":"@ + decimal_of(n as nat) + "}"@,
                None => "}"@,
            };
            assert(t == s2 + rest);
            text::lemma_begins_holds(t, s2, rest);
            text::lemma_begins_first(t, s2, rest);
            lemma_field_shown(t, s1, ",\"reason\":"@, quoted(reason));
            lemma_field_shown(t, s0, ",\"tool\":"@, quoted(tool));
        },
        Record::Externalize { ts, session, tool, orig_bytes, new_bytes } => {
            let s0 = line_start("externalize"@, ts, session);
            let s1 = s0 + ",\"tool\":"@ + quoted(tool);
            let s2 = s1 + ",\"orig_bytes\":"@ + decimal_of(orig_bytes as nat);
            let s3 = s2 + ",\"new_bytes\":"@ + decimal_of(new_bytes as nat);
            text::lemma_begins_first(t, s3, "}"@);
            lemma_field_shown(t, s2, ",\"new_bytes\":"@, decimal_of(new_bytes as nat));
            lemma_field_shown(t, s1, ",\"orig_bytes\":"@, decimal_of(orig_bytes as nat));
            lemma_field_shown(t, s0, ",\"tool\":"@, quoted(tool));
        },
        Record::Inject { ts, session, source, bytes } => {
            let s0 = line_start("inject"@, ts, session);
            let s1 = s0 + ",\"source\":"@ + quoted(source);
            let s2 = s1 + ",\"bytes\":"@ + decimal_of(bytes as nat);
            text::lemma_begins_first(t, s2, "}"@);
            lemma_field_shown(t, s1, ",\"bytes\":"@, decimal_of(bytes as nat));
            lemma_field_shown(t, s0, ",\"source\":"@, quoted(source));
        },
        Record::Sandbox { ts, session, tool, orig_bytes, new_bytes, saved } => {
            let s0 = line_start("sandbox"@, ts, session);
            let s1 = s0 + ",\"tool\":"@ + quoted(tool);
            let s2 = s1 + ",\"orig_bytes\":"@ + decimal_of(orig_bytes as nat);
            let s3 = s2 + ",\"new_bytes\":"@ + decimal_of(new_bytes as nat);
            let s4 = s3 + ",\"saved\":"@ + decimal_of(saved as nat);
            text::lemma_begins_first(t, s4, "}"@);
            lemma_field_shown(t, s3, ",\"saved\":"@, decimal_of(saved as nat));
            lemma_field_shown(t, s2, ",\"new_bytes\":"@, decimal_of(new_bytes as nat));
            lemma_field_shown(t, s1, ",\"orig_bytes\":"@, decimal_of(orig_bytes as nat));
            lemma_field_shown(t, s0, ",\"tool\":"@, quoted(tool));
        },
    }
}

proof fn lemma_field_shown(t: Seq<char>, front: Seq<char>, key: Seq<char>, value: Seq<char>)
    requires
        text::begins(t, front + key + value),
    ensures
        text::holds(t, key + value),
        text::begins(t, front),
{
    assert(front + key + value =~= front + (key + value));
    text::lemma_begins_holds(t, front, key + value);
    text::lemma_begins_first(t, front, key + value);
}

/// Where an entry has no size the line has no field for one.
pub proof fn lemma_size_left_out(ts: u64, session: Seq<char>, tool: Seq<char>, reason: Seq<char>)
    ensures
        line_of(Record::Retrieval { ts, session, tool, reason, size: None }) == line_start(
            "retrieval"@,
            ts,
            session,
        ) + ",\"tool\":"@ + quoted(tool) + ",\"reason\":"@ + quoted(reason) + "}"@,
{
}

} // verus!
