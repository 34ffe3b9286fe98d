//! Where the three compression lines meet the hook protocol: input (skeleton /
//! externalize), output (injected style), history (snapshot + compact advice).
//!
//! Every function here takes what was read and says what to answer and what to write;
//! the caller reads, writes and prints.

use vstd::prelude::*;

use crate::assets;
use crate::assets::{COMPACT_ADVICE, LITE_RULESET, PROTECT_MARKERS, REINFORCE, RULESET};
use crate::calendar;
use crate::calendar::stamp_of;
use crate::compress::externalize;
use crate::compress::skeleton;
use crate::config::{CompressionLevel, Config, Limits};
use crate::events::{Event, HookEvent, Output, Reply};
use crate::json;
use crate::json::{field, inner, string, Json, Tree};
use crate::ledger::{
    Entry, ExternalizeEntry, InjectEntry, Record, RetrievalEntry, RewriteEntry, SandboxEntry,
};
use crate::ledger;
use crate::number;
use crate::number::decimal_of;
use crate::path;
use crate::path::joined_path;
use crate::policy;
use crate::sandbox;
use crate::snapshot;
use crate::snapshot::Snapshot;
use crate::storage;
use crate::storage::{ext_path, session_path, text_digest, FileWrite};
use crate::text;
use crate::text::{byte_count, first_chars, flat, found_at, holds, occurrences, texts};

verus! {

/// The answer to a hook, and what is to be appended to the session's ledger and to its
/// event log, in order.
#[derive(Debug, PartialEq)]
pub struct Reaction {
    pub output: Output,
    pub entries: Vec<Entry>,
    pub events: Vec<String>,
}

/// What a reaction says.
pub struct Effects {
    pub reply: Reply,
    pub records: Seq<Record>,
    pub events: Seq<Seq<char>>,
}

impl Reaction {
    /// What the reaction says.
    pub open spec fn effects(self) -> Effects {
        Effects {
            reply: self.output.reply(),
            records: ledger::records(self.entries@),
            events: texts(self.events@),
        }
    }

    /// No decision to communicate and nothing to record.
    pub fn passthrough() -> (r: Reaction)
        ensures
            r.effects() == nothing(),
    {
        let r = Reaction { output: Output::Passthrough, entries: Vec::new(), events: Vec::new() };
        assert(r.effects().records =~= nothing().records);
        assert(r.effects().events =~= nothing().events);
        r
    }
}

/// No decision to communicate and nothing to record.
pub open spec fn nothing() -> Effects {
    Effects { reply: Reply::Passthrough, records: Seq::empty(), events: Seq::empty() }
}

/// One line of the event log: `[time stamp] category: content`, grep-friendly. `ts` is in
/// seconds since the epoch. A line break in the content becomes a blank.
pub open spec fn event_line(ts: u64, body: Seq<char>) -> Seq<char> {
    "["@ + stamp_of(ts) + "] "@ + flat(body) + "\n"@
}

/// One line per event, `[time stamp] category: content`, grep-friendly. `ts` is in seconds
/// since the epoch.
pub fn log_event(ts: u64, body: &str) -> (r: String)
    ensures
        r@ == event_line(ts, body@),
{
    let mut s = text::copy("[");
    s.append(calendar::stamp(ts).as_str());
    s.append("] ");
    s.append(text::flatten(body).as_str());
    s.append("\n");
    s
}

/// Every event is one line of the log, whatever it says.
pub proof fn lemma_one_line(ts: u64, body: Seq<char>)
    ensures
        event_line(ts, body).len() > 0,
        event_line(ts, body).last() == '\n',
        !event_line(ts, body).drop_last().contains('\n'),
{
    reveal_strlit("[");
    reveal_strlit("] ");
    reveal_strlit("\n");
    let stamp = stamp_of(ts);
    let line = event_line(ts, body).drop_last();
    assert(line =~= "["@ + stamp + "] "@ + flat(body));
    if line.contains('\n') {
        let i = line.index_of('\n');
        if 1 <= i < 1 + stamp.len() {
            assert(line[i] == stamp[i - 1]);
            calendar::lemma_stamp_plain(ts, i - 1);
        } else if i >= stamp.len() + 3 {
            assert(line[i] == flat(body)[i - stamp.len() - 3]);
        }
    }
}

/// The ruleset of a level: `lite` has a shorter one.
pub open spec fn ruleset(level: CompressionLevel) -> Seq<char> {
    if level == CompressionLevel::Lite {
        LITE_RULESET@
    } else {
        RULESET@
    }
}

/// Ruleset per compression level: lite is a shorter subset;
/// full/ultra/auto use the full measured ruleset.
pub fn ruleset_for(level: CompressionLevel) -> (r: &'static str)
    ensures
        r@ == ruleset(level),
{
    match level {
        CompressionLevel::Lite => LITE_RULESET,
        _ => RULESET,
    }
}

/// The record of an injection of `ctx`.
pub open spec fn injection(ts: u64, session: Seq<char>, source: Seq<char>, bytes: usize) -> Record {
    Record::Inject { ts, session, source, bytes }
}

fn inject_entry(ts: u64, session: &str, source: &str, bytes: usize) -> (r: Entry)
    ensures
        r.record() == injection(ts, session@, source@, bytes),
{
    Entry::Inject(
        InjectEntry { ts, session: text::copy(session), source: text::copy(source), bytes },
    )
}

proof fn lemma_records_push(entries: Seq<Entry>, e: Entry)
    ensures
        ledger::records(entries.push(e)) == ledger::records(entries).push(e.record()),
{
    assert(ledger::records(entries.push(e)) =~= ledger::records(entries).push(e.record()));
}

/// The event that every prompt leaves in `auto` mode.
pub open spec fn turn_event() -> Seq<char> {
    "prompt_turn: user message submitted"@
}

/// The event that every prompt leaves in `auto` mode.
pub fn log_prompt_turn() -> (r: String)
    ensures
        r@ == turn_event(),
{
    text::copy("prompt_turn: user message submitted")
}

/// How many user turns the event log shows.
pub open spec fn turns_in(log: Seq<char>) -> nat {
    occurrences(log, "prompt_turn"@)
}

/// Number of user turns so far (`auto` output compression uses this to defer
/// injection until the fixed ruleset cost pays back).
pub fn prompt_turns(log: &str) -> (n: usize)
    ensures
        n == turns_in(log@),
{
    proof {
        reveal_strlit("prompt_turn");
    }
    text::count(log, "prompt_turn")
}

/// Does the ledger show that a ruleset was injected?
pub open spec fn ruleset_seen(ledger: Seq<char>) -> bool {
    holds(ledger, "auto_ruleset"@) || holds(ledger, "session_start_ruleset"@)
}

/// True once a ruleset was injected this session (auto mode injects at most once).
pub fn ruleset_injected(ledger: &str) -> (b: bool)
    ensures
        b == ruleset_seen(ledger@),
{
    text::contains(ledger, "auto_ruleset") || text::contains(ledger, "session_start_ruleset")
}

/// Does the event log show that the advice to compact was given?
pub open spec fn advice_seen(log: Seq<char>) -> bool {
    holds(log, "compact_advice"@)
}

/// True once the advice to compact was given this session.
pub fn already_advised(log: &str) -> (b: bool)
    ensures
        b == advice_seen(log@),
{
    text::contains(log, "compact_advice")
}

/// Two numbers added, stopping at the largest.
pub open spec fn saturated(a: u64, b: u64) -> u64 {
    if a + b > u64::MAX {
        u64::MAX
    } else {
        (a + b) as u64
    }
}

/// The input tokens that a usage block counts, cache reads and cache writes with them.
pub open spec fn usage_sum(u: Tree) -> u64 {
    saturated(
        saturated(
            json::number_or_zero(field(u, "input_tokens"@)),
            json::number_or_zero(field(u, "cache_read_input_tokens"@)),
        ),
        json::number_or_zero(field(u, "cache_creation_input_tokens"@)),
    )
}

/// The usage of the last assistant turn among the lines of a transcript. A line that cannot
/// be read on the way, or a turn without usage, leaves it unknown.
pub open spec fn last_usage(lines: Seq<Seq<char>>) -> Option<u64>
    decreases lines.len(),
{
    if lines.len() == 0 {
        None
    } else {
        match json::parsed(lines.last()) {
            Err(_) => None,
            Ok(t) => if !snapshot::typed(t, "assistant"@) {
                last_usage(lines.drop_last())
            } else {
                match inner(t, "message"@, "usage"@) {
                    Some(u) => Some(usage_sum(u)),
                    None => None,
                }
            },
        }
    }
}

fn add_up(a: u64, b: u64) -> (r: u64)
    ensures
        r == saturated(a, b),
{
    if a > u64::MAX - b {
        u64::MAX
    } else {
        a + b
    }
}

/// Sum of the last assistant turn's input tokens (with cache reads). `None` where it cannot
/// be told (fail-open).
pub fn last_assistant_usage(transcript: &str) -> (r: Option<u64>)
    ensures
        r == last_usage(text::lines_of(transcript@)),
{
    let lines = text::lines(transcript);
    let ghost all = texts(lines@);
    let mut i: usize = lines.len();
    assert(all.take(i as int) =~= all);
    while i > 0
        invariant
            i <= lines@.len(),
            all == texts(lines@),
            last_usage(all.take(i as int)) == last_usage(all),
            all == text::lines_of(transcript@),
        decreases i,
    {
        proof {
            assert(all.take(i as int).drop_last() =~= all.take(i - 1));
            assert(all.take(i as int).last() == lines@[i - 1]@);
        }
        match json::parse(lines[i - 1].as_str()) {
            Err(_) => {
                return None;
            },
            Ok(v) => {
                if json::is_text(v.get("type"), "assistant") {
                    return match v.get_inner("message", "usage") {
                        Some(u) => Some(
                            add_up(
                                add_up(
                                    json::as_number(u.get("input_tokens")),
                                    json::as_number(u.get("cache_read_input_tokens")),
                                ),
                                json::as_number(u.get("cache_creation_input_tokens")),
                            ),
                        ),
                        None => None,
                    };
                }
            },
        }
        i = i - 1;
    }
    None
}

/// What a prompt hook looks at: the session's event log and ledger as far as they exist, and
/// the transcript, where the event names one that can be read.
pub struct Seen {
    pub log: Seq<char>,
    pub ledger: Seq<char>,
    pub transcript: Option<Seq<char>>,
}

/// From this many logged turns on, `auto` mode injects.
pub const AUTO_TURNS: usize = 2;

/// Is the style injected with this prompt?
pub open spec fn styles(cfg: Config, seen: Seen) -> bool {
    cfg.compresses() && (cfg.output_compression == CompressionLevel::Auto ==> turns_in(seen.log)
        >= AUTO_TURNS)
}

/// Is the ruleset itself injected with this prompt? Only `auto` mode does, and only once.
pub open spec fn opens(cfg: Config, seen: Seen) -> bool {
    styles(cfg, seen) && cfg.output_compression == CompressionLevel::Auto && !ruleset_seen(
        seen.ledger,
    )
}

/// Is the advice to compact given with this prompt?
pub open spec fn advises(cfg: Config, seen: Seen, lim: Limits) -> bool {
    cfg.enabled && (match seen.transcript {
        Some(t) => match last_usage(text::lines_of(t)) {
            Some(n) => n > lim.compact_advice_threshold,
            None => false,
        },
        None => false,
    }) && !advice_seen(seen.log)
}

/// The style that goes with a prompt.
pub open spec fn style(cfg: Config, seen: Seen) -> Seq<char> {
    if opens(cfg, seen) {
        ruleset(cfg.output_compression) + REINFORCE@
    } else if styles(cfg, seen) {
        REINFORCE@
    } else {
        Seq::empty()
    }
}

/// The context that goes with a prompt.
pub open spec fn prompt_context(cfg: Config, seen: Seen, lim: Limits) -> Seq<char> {
    let s = style(cfg, seen);
    if !advises(cfg, seen, lim) {
        s
    } else if s.len() > 0 {
        s + "\n"@ + COMPACT_ADVICE@
    } else {
        COMPACT_ADVICE@
    }
}

/// The size of a text as the ledger records it.
pub open spec fn size(s: Seq<char>) -> usize {
    byte_count(s) as usize
}

/// The injections that go with a prompt.
pub open spec fn prompt_records(
    cfg: Config,
    seen: Seen,
    session: Seq<char>,
    ts: u64,
    lim: Limits,
) -> Seq<Record> {
    let opening = if opens(cfg, seen) {
        seq![injection(ts, session, "auto_ruleset"@, size(ruleset(cfg.output_compression)))]
    } else {
        Seq::empty()
    };
    let styling = if styles(cfg, seen) {
        opening.push(injection(ts, session, "per_turn_reinforce"@, size(REINFORCE@)))
    } else {
        opening
    };
    if advises(cfg, seen, lim) {
        styling.push(injection(ts, session, "compact_advice"@, size(COMPACT_ADVICE@)))
    } else {
        styling
    }
}

/// The event that giving the advice leaves.
pub open spec fn advice_event() -> Seq<char> {
    "compact_advice: context above 180k, /compact suggested"@
}

/// The events that a prompt leaves.
pub open spec fn prompt_events(cfg: Config, seen: Seen, lim: Limits) -> Seq<Seq<char>> {
    let turn = if cfg.compresses() && cfg.output_compression == CompressionLevel::Auto {
        seq![turn_event()]
    } else {
        Seq::empty()
    };
    if advises(cfg, seen, lim) {
        turn.push(advice_event())
    } else {
        turn
    }
}

/// What a prompt hook does.
pub open spec fn prompt_effects(
    cfg: Config,
    seen: Seen,
    session: Seq<char>,
    ts: u64,
    lim: Limits,
) -> Effects {
    let ctx = prompt_context(cfg, seen, lim);
    Effects {
        reply: if ctx.len() == 0 {
            Reply::Passthrough
        } else {
            Reply::Context(Event::UserPromptSubmit, ctx)
        },
        records: prompt_records(cfg, seen, session, ts, lim),
        events: prompt_events(cfg, seen, lim),
    }
}

/// UserPromptSubmit: per-turn reinforcement, then the /compact advice.
/// In `auto` mode, output compression only starts once the session has enough
/// turns for the fixed ruleset cost to pay back (break-even at about 3 turns); short
/// sessions pay nothing.
///
/// `log` and `ledger` are the session's event log and ledger, empty where there are none;
/// `transcript` is the transcript that the event names, where it can be read.
pub fn user_prompt(
    cfg: &Config,
    ev: &HookEvent,
    log: &str,
    ledger: &str,
    transcript: Option<&str>,
    ts: u64,
    limits: &Limits,
) -> (r: Reaction)
    ensures
        r.effects() == prompt_effects(
            *cfg,
            (Seen { log: log@, ledger: ledger@, transcript: json::shown(transcript) }),
            ev.session_id@,
            ts,
            *limits,
        ),
{
    let ghost seen = Seen { log: log@, ledger: ledger@, transcript: json::shown(transcript) };
    let session = ev.session_id.as_str();
    let mut ctx = String::new();
    let mut entries: Vec<Entry> = Vec::new();
    let mut events: Vec<String> = Vec::new();
    proof {
        assert(ledger::records(entries@) =~= Seq::empty());
        assert(texts(events@) =~= Seq::empty());
        assert(ctx@ =~= Seq::empty());
    }
    if cfg.compression_on() {
        let mut styled = true;
        if cfg.output_compression == CompressionLevel::Auto {
            let turn = log_prompt_turn();
            proof {
                text::lemma_texts_push(events@, turn);
            }
            events.push(turn);
            assert(texts(events@) =~= seq![turn_event()]);
            styled = prompt_turns(log) >= AUTO_TURNS;
            if styled && !ruleset_injected(ledger) {
                let rs = ruleset_for(cfg.output_compression);
                ctx.append(rs);
                let e = inject_entry(ts, session, "auto_ruleset", text::byte_len(rs));
                proof {
                    lemma_records_push(entries@, e);
                }
                entries.push(e);
                assert(ledger::records(entries@) =~= seq![e.record()]);
                assert(ctx@ =~= ruleset(cfg.output_compression));
            }
        }
        if styled {
            ctx.append(REINFORCE);
            let e = inject_entry(ts, session, "per_turn_reinforce", text::byte_len(REINFORCE));
            proof {
                lemma_records_push(entries@, e);
            }
            entries.push(e);
        }
    }
    proof {
        assert(ctx@ =~= style(*cfg, seen));
    }
    let used: u64 = match transcript {
        Some(t) => match last_assistant_usage(t) {
            Some(n) => n,
            None => 0,
        },
        None => 0,
    };
    if cfg.enabled && used > limits.compact_advice_threshold as u64 && !already_advised(log) {
        assert(advises(*cfg, seen, *limits));
        if !ctx.as_str().is_empty() {
            ctx.append("\n");
        }
        ctx.append(COMPACT_ADVICE);
        assert(ctx@ =~= prompt_context(*cfg, seen, *limits));
        let advice = text::copy("compact_advice: context above 180k, /compact suggested");
        proof {
            text::lemma_texts_push(events@, advice);
        }
        events.push(advice);
        let e = inject_entry(ts, session, "compact_advice", text::byte_len(COMPACT_ADVICE));
        proof {
            lemma_records_push(entries@, e);
        }
        entries.push(e);
    }
    proof {
        assert(ctx@ =~= prompt_context(*cfg, seen, *limits));
        assert(ledger::records(entries@) =~= prompt_records(*cfg, seen, session@, ts, *limits));
        assert(texts(events@) =~= prompt_events(*cfg, seen, *limits));
    }
    let output = if ctx.as_str().is_empty() {
        Output::Passthrough
    } else {
        Output::Context(Event::UserPromptSubmit, ctx)
    };
    Reaction { output, entries, events }
}

/// Is the ruleset injected at the start of a session? In `auto` mode the prompts decide.
pub open spec fn rules(cfg: Config) -> bool {
    cfg.compresses() && cfg.output_compression != CompressionLevel::Auto
}

/// Does the session return to earlier work?
pub open spec fn comes_back(source: Option<Seq<char>>) -> bool {
    source == Some("resume"@) || source == Some("compact"@)
}

/// The context that a session starts with.
pub open spec fn start_context(
    cfg: Config,
    source: Option<Seq<char>>,
    snap: Option<snapshot::Notes>,
    lim: Limits,
) -> Seq<char> {
    let start = if rules(cfg) {
        ruleset(cfg.output_compression) + "\n"@
    } else {
        Seq::empty()
    };
    if cfg.enabled && comes_back(source) && snap is Some {
        start + "\n\nRESUME:\n"@ + resumption(snap->0, lim)
    } else {
        start
    }
}

/// The resume injection of a snapshot.
pub open spec fn resumption(n: snapshot::Notes, lim: Limits) -> Seq<char> {
    snapshot::assembled(n, lim.inject_budget as nat, lim)
}

/// What the start of a session does.
pub open spec fn start_effects(
    cfg: Config,
    source: Option<Seq<char>>,
    snap: Option<snapshot::Notes>,
    session: Seq<char>,
    ts: u64,
    lim: Limits,
) -> Effects {
    let ctx = start_context(cfg, source, snap, lim);
    let ruled = if rules(cfg) {
        seq![
            injection(
                ts,
                session,
                "session_start_ruleset"@,
                size(ruleset(cfg.output_compression)),
            ),
        ]
    } else {
        Seq::empty()
    };
    Effects {
        reply: if ctx.len() == 0 {
            Reply::Passthrough
        } else {
            Reply::Context(Event::SessionStart, ctx)
        },
        records: if cfg.enabled && comes_back(source) && snap is Some {
            ruled.push(injection(ts, session, "resume_snapshot"@, size(resumption(snap->0, lim))))
        } else {
            ruled
        },
        events: Seq::empty(),
    }
}

/// What an optional snapshot says.
pub open spec fn noted(snap: Option<&Snapshot>) -> Option<snapshot::Notes> {
    match snap {
        Some(s) => Some(s.notes()),
        None => None,
    }
}

/// Does the session return to earlier work?
fn is_return(source: &Option<String>) -> (b: bool)
    ensures
        b == comes_back(text::content(*source)),
{
    match source {
        Some(s) => text::same(s.as_str(), "resume") || text::same(s.as_str(), "compact"),
        None => false,
    }
}

/// SessionStart: the long ruleset, plus a resume injection when returning.
/// In `auto` mode the ruleset is *not* injected here: whether output compression pays back
/// depends on session length, which is decided per turn in `user_prompt`. The resume
/// injection is lossless and independent of the output level.
///
/// `snap` is the session's snapshot, where there is one that can be read.
pub fn session_start(
    cfg: &Config,
    ev: &HookEvent,
    snap: Option<&Snapshot>,
    ts: u64,
    limits: &Limits,
) -> (r: Reaction)
    ensures
        r.effects() == start_effects(
            *cfg,
            text::content(ev.source),
            noted(snap),
            ev.session_id@,
            ts,
            *limits,
        ),
{
    let session = ev.session_id.as_str();
    let mut ctx = String::new();
    let mut entries: Vec<Entry> = Vec::new();
    let events: Vec<String> = Vec::new();
    let ghost want = start_effects(
        *cfg,
        text::content(ev.source),
        noted(snap),
        session@,
        ts,
        *limits,
    );
    proof {
        assert(ledger::records(entries@) =~= Seq::empty());
        assert(texts(events@) =~= Seq::empty());
        assert(ctx@ =~= Seq::empty());
    }
    if cfg.compression_on() && cfg.output_compression != CompressionLevel::Auto {
        let rs = ruleset_for(cfg.output_compression);
        ctx.append(rs);
        ctx.append("\n");
        let e = inject_entry(ts, session, "session_start_ruleset", text::byte_len(rs));
        proof {
            lemma_records_push(entries@, e);
        }
        entries.push(e);
        assert(ledger::records(entries@) =~= seq![e.record()]);
        assert(ctx@ =~= ruleset(cfg.output_compression) + "\n"@);
    }
    if cfg.enabled && is_return(&ev.source) {
        if let Some(s) = snap {
            let inj = snapshot::assemble_with(s, limits.inject_budget, limits);
            ctx.append("\n\nRESUME:\n");
            ctx.append(inj.as_str());
            let e = inject_entry(ts, session, "resume_snapshot", text::byte_len(inj.as_str()));
            proof {
                lemma_records_push(entries@, e);
            }
            entries.push(e);
        }
    }
    proof {
        assert(ctx@ =~= start_context(*cfg, text::content(ev.source), noted(snap), *limits));
        assert(ledger::records(entries@) =~= want.records);
        assert(texts(events@) =~= want.events);
    }
    let output = if ctx.as_str().is_empty() {
        Output::Passthrough
    } else {
        Output::Context(Event::SessionStart, ctx)
    };
    Reaction { output, entries, events }
}

/// How much of role and intent the event log keeps.
pub const LOGGED_CHARS: usize = 120;

/// What a compaction does to the session: the answer, and the snapshot file.
#[derive(Debug, PartialEq)]
pub struct Compaction {
    pub reaction: Reaction,
    pub snapshot: Option<FileWrite>,
}

/// Each of the items as an event of that category.
pub open spec fn labelled(label: Seq<char>, items: Seq<Seq<char>>) -> Seq<Seq<char>> {
    items.map_values(|s: Seq<char>| label + s)
}

/// The events that a compaction leaves, so that what the snapshot says can be found in the
/// log: the role, each decision, each skill, the intent.
pub open spec fn compaction_events(n: snapshot::Notes) -> Seq<Seq<char>> {
    seq!["role: "@ + first_chars(n.role, LOGGED_CHARS as nat)] + labelled(
        "decision: "@,
        n.decisions,
    ) + labelled("skill: "@, n.skills) + seq![
        "intent: "@ + first_chars(n.intent, LOGGED_CHARS as nat),
    ]
}

fn push_labelled(events: &mut Vec<String>, label: &str, item: &str)
    ensures
        texts(final(events)@) == texts(old(events)@).push(label@ + item@),
{
    let mut e = text::copy(label);
    e.append(item);
    proof {
        text::lemma_texts_push(events@, e);
    }
    events.push(e);
}

fn push_all_labelled(events: &mut Vec<String>, label: &str, items: &Vec<String>)
    ensures
        texts(final(events)@) == texts(old(events)@) + labelled(label@, texts(items@)),
{
    let ghost first = texts(events@);
    let ghost want = labelled(label@, texts(items@));
    let mut i: usize = 0;
    assert(first + want.take(0) =~= first);
    while i < items.len()
        invariant
            i <= items@.len(),
            want == labelled(label@, texts(items@)),
            want.len() == items@.len(),
            texts(events@) == first + want.take(i as int),
        decreases items@.len() - i,
    {
        assert(want[i as int] == label@ + items@[i as int]@);
        push_labelled(events, label, items[i].as_str());
        assert(first + want.take(i + 1) =~= (first + want.take(i as int)).push(want[i as int]));
        i = i + 1;
    }
    assert(want.take(i as int) =~= want);
}

fn log_compaction(snap: &Snapshot) -> (r: Vec<String>)
    ensures
        texts(r@) == compaction_events(snap.notes()),
{
    let mut events: Vec<String> = Vec::new();
    assert(texts(events@) =~= Seq::empty());
    push_labelled(
        &mut events,
        "role: ",
        text::take_chars(snap.role.as_str(), LOGGED_CHARS).as_str(),
    );
    push_all_labelled(&mut events, "decision: ", &snap.decisions);
    push_all_labelled(&mut events, "skill: ", &snap.skills);
    push_labelled(
        &mut events,
        "intent: ",
        text::take_chars(snap.intent.as_str(), LOGGED_CHARS).as_str(),
    );
    assert(texts(events@) =~= compaction_events(snap.notes()));
    events
}

/// Where a session keeps its snapshot.
pub open spec fn snapshot_file(home: Seq<char>, session: Seq<char>) -> Seq<char> {
    joined_path(session_path(home, session), "resume-snapshot.json"@)
}

/// Where a session keeps its snapshot.
pub fn snapshot_path(home: &str, session: &str) -> (r: String)
    ensures
        r@ == snapshot_file(home@, session@),
{
    path::join(storage::session_dir(home, session).as_str(), "resume-snapshot.json")
}

/// What a compaction with a transcript does.
pub open spec fn compaction_effects(
    session: Seq<char>,
    transcript: Seq<char>,
    ts: u64,
    lim: Limits,
) -> Effects {
    Effects {
        reply: Reply::Context(Event::PreCompact, PROTECT_MARKERS@),
        records: seq![
            injection(ts, session, "precompact_anchor_protection"@, size(PROTECT_MARKERS@)),
        ],
        events: compaction_events(snapshot::notes_of(transcript, session, lim)),
    }
}

/// The snapshot that a compaction writes, where one is to be written: its file and what the
/// file says.
pub open spec fn snapshot_written(
    cfg: Config,
    transcript_path: Option<Seq<char>>,
    home: Seq<char>,
    session: Seq<char>,
    transcript: Seq<char>,
    lim: Limits,
) -> Option<(Seq<char>, Seq<char>)> {
    if cfg.enabled && transcript_path is Some {
        Some(
            (
                snapshot_file(home, session),
                snapshot::snapshot_text(
                    snapshot::shrunk(snapshot::notes_of(transcript, session, lim), lim),
                ),
            ),
        )
    } else {
        None
    }
}

/// PreCompact: build the snapshot, then ask the compactor to keep the anchors.
///
/// `transcript` is the transcript that the event names, empty where it cannot be read.
pub fn precompact(
    cfg: &Config,
    ev: &HookEvent,
    home: &str,
    transcript: &str,
    ts: u64,
    limits: &Limits,
) -> (r: Compaction)
    ensures
        !cfg.enabled || ev.transcript_path is None ==> r.reaction.effects() == nothing(),
        cfg.enabled && ev.transcript_path is Some ==> r.reaction.effects() == compaction_effects(
            ev.session_id@,
            transcript@,
            ts,
            *limits,
        ),
        filed(r.snapshot) == snapshot_written(
            *cfg,
            text::content(ev.transcript_path),
            home@,
            ev.session_id@,
            transcript@,
            *limits,
        ),
{
    if !cfg.enabled || ev.transcript_path.is_none() {
        return Compaction { reaction: Reaction::passthrough(), snapshot: None };
    }
    let session = ev.session_id.as_str();
    let snap = snapshot::build(transcript, session, limits);
    let file = FileWrite {
        path: snapshot_path(home, session),
        text: snapshot::write_snapshot(&snap, limits),
    };
    let events = log_compaction(&snap);
    let e = inject_entry(
        ts,
        session,
        "precompact_anchor_protection",
        text::byte_len(PROTECT_MARKERS),
    );
    let mut entries: Vec<Entry> = Vec::new();
    entries.push(e);
    let output = Output::Context(Event::PreCompact, text::copy(PROTECT_MARKERS));
    let reaction = Reaction { output, entries, events };
    proof {
        let want = compaction_effects(session@, transcript@, ts, *limits);
        assert(reaction.effects().records =~= want.records);
        assert(reaction.effects().events =~= want.events);
    }
    Compaction { reaction, snapshot: Some(file) }
}

/// A text, or a question mark.
pub open spec fn or_unknown(s: Option<Seq<char>>) -> Seq<char> {
    match s {
        Some(t) => t,
        None => "?"@,
    }
}

/// What a tool result does: nothing when TSK is off, else a note in the event log.
pub open spec fn observed(
    cfg: Config,
    tool_name: Option<Seq<char>>,
    tool_use_id: Option<Seq<char>>,
) -> Effects {
    if !cfg.enabled {
        nothing()
    } else {
        Effects {
            reply: Reply::Passthrough,
            records: Seq::empty(),
            events: seq![
                "posttooluse: tool="@ + or_unknown(tool_name) + " tu_id="@ + or_unknown(
                    tool_use_id,
                ),
            ],
        }
    }
}

/// PostToolUse: a tool result is never rewritten, so this is always a
/// passthrough. Each call is recorded in the event log.
pub fn posttooluse(cfg: &Config, ev: &HookEvent) -> (r: Reaction)
    ensures
        r.effects() == observed(*cfg, text::content(ev.tool_name), text::content(ev.tool_use_id)),
{
    if !cfg.enabled {
        return Reaction::passthrough();
    }
    let mut event = text::copy("posttooluse: tool=");
    match &ev.tool_name {
        Some(t) => event.append(t.as_str()),
        None => event.append("?"),
    }
    event.append(" tu_id=");
    match &ev.tool_use_id {
        Some(t) => event.append(t.as_str()),
        None => event.append("?"),
    }
    let mut events: Vec<String> = Vec::new();
    let ghost said = event@;
    events.push(event);
    let r = Reaction { output: Output::Passthrough, entries: Vec::new(), events };
    assert(r.effects().records =~= Seq::empty());
    assert(r.effects().events =~= seq![said]);
    r
}

/// What the caller of `pretooluse` does next.
#[derive(Debug, PartialEq)]
pub enum Step {
    /// Answer.
    Done(Reaction),
    /// An explicit retrieval: take the size of the file and go on with `escaped`.
    Measure(String),
    /// Read the file and go on with `loaded`.
    Load(String),
}

/// What a step says.
pub enum Next {
    Done(Effects),
    Measure(Seq<char>),
    Load(Seq<char>),
}

impl Step {
    /// What the step says.
    pub open spec fn next(self) -> Next {
        match self {
            Step::Done(r) => Next::Done(r.effects()),
            Step::Measure(p) => Next::Measure(p@),
            Step::Load(p) => Next::Load(p@),
        }
    }
}

/// The file that a tool call names.
pub open spec fn target(tool_input: Tree) -> Option<Seq<char>> {
    string(field(tool_input, "file_path"@))
}

/// Is another tool than `Read` about to run?
pub open spec fn other_tool(tool_name: Option<Seq<char>>) -> bool {
    tool_name matches Some(t) && t != "Read"@
}

/// The first step of a tool call: nothing is done when TSK is off, when the tool is not
/// `Read`, or when no file is named; an explicit offset or limit is a retrieval, and so is a
/// file that TSK externalized itself; any other file is read.
pub open spec fn first_step(
    cfg: Config,
    tool_name: Option<Seq<char>>,
    tool_input: Tree,
    home: Seq<char>,
    session: Seq<char>,
) -> Next {
    match target(tool_input) {
        None => Next::Done(nothing()),
        Some(orig) => if !cfg.enabled || other_tool(tool_name) {
            Next::Done(nothing())
        } else if policy::escapes(tool_input) {
            Next::Measure(orig)
        } else if path::under(orig, ext_path(home, session)) {
            Next::Done(nothing())
        } else {
            Next::Load(orig)
        },
    }
}

fn is_other_tool(tool_name: &Option<String>) -> (b: bool)
    ensures
        b == other_tool(text::content(*tool_name)),
{
    match tool_name {
        Some(t) => !text::same(t.as_str(), "Read"),
        None => false,
    }
}

/// PreToolUse(Read): the only rewriting point.
pub fn pretooluse(cfg: &Config, ev: &HookEvent, home: &str) -> (r: Step)
    ensures
        r.next() == first_step(
            *cfg,
            text::content(ev.tool_name),
            ev.tool_input.tree(),
            home@,
            ev.session_id@,
        ),
{
    match json::as_text(ev.tool_input.get("file_path")) {
        None => Step::Done(Reaction::passthrough()),
        Some(orig) => if !cfg.enabled || is_other_tool(&ev.tool_name) {
            Step::Done(Reaction::passthrough())
        } else if policy::is_escape(&ev.tool_input) {
            // An explicit offset/limit is a retrieval, never a compression.
            Step::Measure(text::copy(orig))
        } else if path::starts_with(
            orig,
            storage::ext_dir(home, ev.session_id.as_str()).as_str(),
        ) {
            // Reading externalized text back must not externalize it again.
            Step::Done(Reaction::passthrough())
        } else {
            Step::Load(text::copy(orig))
        },
    }
}

/// What an explicit retrieval does: it passes, and it is recorded.
pub open spec fn escape_effects(
    session: Seq<char>,
    orig: Seq<char>,
    bytes: Option<usize>,
    ts: u64,
) -> Effects {
    Effects {
        reply: Reply::Passthrough,
        records: seq![
            Record::Retrieval {
                ts,
                session,
                tool: "Read"@,
                reason: "escape_hatch_offset_limit"@,
                size: bytes,
            },
        ],
        events: seq![
            "retrieval: escaped via offset/limit, "@ + decimal_of(
                match bytes {
                    Some(n) => n as nat,
                    None => 0,
                },
            ) + " bytes ("@ + orig + ")"@,
        ],
    }
}

/// The answer to an explicit retrieval of `orig`, whose size is `bytes` where it is known.
pub fn escaped(ev: &HookEvent, orig: &str, bytes: Option<usize>, ts: u64) -> (r: Reaction)
    ensures
        r.effects() == escape_effects(ev.session_id@, orig@, bytes, ts),
{
    let n: usize = match bytes {
        Some(n) => n,
        None => 0,
    };
    let mut event = text::copy("retrieval: escaped via offset/limit, ");
    event.append(number::decimal(n as u64).as_str());
    event.append(" bytes (");
    event.append(orig);
    event.append(")");
    let mut events: Vec<String> = Vec::new();
    events.push(event);
    let mut entries: Vec<Entry> = Vec::new();
    entries.push(
        Entry::Retrieval(
            RetrievalEntry {
                ts,
                session: text::copy(ev.session_id.as_str()),
                tool: text::copy("Read"),
                reason: text::copy("escape_hatch_offset_limit"),
                orig_bytes: bytes,
            },
        ),
    );
    let r = Reaction { output: Output::Passthrough, entries, events };
    proof {
        let want = escape_effects(ev.session_id@, orig@, bytes, ts);
        assert(r.effects().records =~= want.records);
        assert(r.effects().events =~= want.events);
    }
    r
}

/// The tool call with another file.
pub open spec fn redirected(tool_input: Tree, new_path: Seq<char>) -> Tree {
    match tool_input {
        Tree::Object(m) => Tree::Object(m.insert("file_path"@, Tree::Text(new_path))),
        _ => tool_input,
    }
}

/// The tool call with another file; every other argument stays as it is.
pub fn rewrite(input: &Json, new_path: &str) -> (r: Output)
    ensures
        r.reply() == Reply::UpdatedInput(redirected(input.tree(), new_path@)),
{
    match input.copy() {
        Json::Object(members) => {
            let mut m = json::settled(members);
            json::put(&mut m, "file_path", Json::Text(text::copy(new_path)));
            Output::UpdatedInput(Json::Object(m))
        },
        other => Output::UpdatedInput(other),
    }
}

/// Files to write, and the answer once they are written. Where one of them cannot be
/// written, the answer is not given.
#[derive(Debug, PartialEq)]
pub struct Commit {
    pub files: Vec<FileWrite>,
    pub reaction: Reaction,
}

/// What a commit says.
pub struct Change {
    pub files: Seq<(Seq<char>, Seq<char>)>,
    pub effects: Effects,
}

impl Commit {
    /// What the commit says.
    pub open spec fn change(self) -> Change {
        Change {
            files: self.files@.map_values(|f: FileWrite| f.says()),
            effects: self.reaction.effects(),
        }
    }

    /// The answer, given whether the files were written.
    pub fn settle(self, written: bool) -> (r: Reaction)
        ensures
            written ==> r.effects() == self.change().effects,
            !written ==> r.effects() == nothing(),
    {
        if written {
            self.reaction
        } else {
            Reaction::passthrough()
        }
    }
}

/// What an optional commit says.
pub open spec fn planned(c: Option<Commit>) -> Option<Change> {
    match c {
        Some(c) => Some(c.change()),
        None => None,
    }
}

/// The path of `orig` as the skeleton shows it: below the project where it lies there.
pub open spec fn shown_path(cwd: Seq<char>, orig: Seq<char>) -> Seq<char> {
    if path::under(orig, cwd) {
        path::below(orig, cwd)
    } else {
        orig
    }
}

fn relative(cwd: &str, orig: &str) -> (r: String)
    ensures
        r@ == shown_path(cwd@, orig@),
{
    match path::strip_prefix(orig, cwd) {
        Some(rest) => rest,
        None => text::copy(orig),
    }
}

/// The extension of `orig`, empty where it has none.
pub open spec fn shown_ext(orig: Seq<char>) -> Seq<char> {
    match path::extension_of(orig) {
        Some(e) => e,
        None => Seq::empty(),
    }
}

fn extension_or_empty(orig: &str) -> (r: String)
    ensures
        r@ == shown_ext(orig@),
{
    match path::extension(orig) {
        Some(e) => e,
        None => String::new(),
    }
}

/// Externalizing a text: the whole of it to disk, the `Read` to the pointer.
pub open spec fn externalize_change(
    home: Seq<char>,
    session: Seq<char>,
    tool_input: Tree,
    content: Seq<char>,
    ts: u64,
) -> Change {
    let full = externalize::full_file(home, session, content);
    let pointer = externalize::pointer_file(home, session, content);
    let says = externalize::pointer_says(full, content);
    Change {
        files: seq![(full, content), (pointer, says)],
        effects: Effects {
            reply: Reply::UpdatedInput(redirected(tool_input, pointer)),
            records: seq![
                Record::Externalize {
                    ts,
                    session,
                    tool: "Read"@,
                    orig_bytes: size(content),
                    new_bytes: size(says),
                },
            ],
            events: seq![
                "externalize: "@ + decimal_of(byte_count(content)) + " -> "@ + decimal_of(
                    byte_count(says),
                ) + " bytes, pointer "@ + pointer,
            ],
        },
    }
}

/// Externalize and rewrite the Read target to the pointer file.
pub fn plan_externalize(ev: &HookEvent, home: &str, content: &str, ts: u64) -> (r: Commit)
    ensures
        r.change() == externalize_change(
            home@,
            ev.session_id@,
            ev.tool_input.tree(),
            content@,
            ts,
        ),
{
    let x = externalize::externalize(home, ev.session_id.as_str(), content);
    let mut event = text::copy("externalize: ");
    event.append(number::decimal(x.bytes as u64).as_str());
    event.append(" -> ");
    event.append(number::decimal(x.pointer_bytes as u64).as_str());
    event.append(" bytes, pointer ");
    event.append(x.pointer.as_str());
    let mut events: Vec<String> = Vec::new();
    events.push(event);
    let mut entries: Vec<Entry> = Vec::new();
    entries.push(
        Entry::Externalize(
            ExternalizeEntry {
                ts,
                session: text::copy(ev.session_id.as_str()),
                tool: text::copy("Read"),
                orig_bytes: x.bytes,
                new_bytes: x.pointer_bytes,
            },
        ),
    );
    let output = rewrite(&ev.tool_input, x.pointer.as_str());
    let mut files: Vec<FileWrite> = Vec::new();
    files.push(FileWrite { path: x.full, text: text::copy(content) });
    files.push(FileWrite { path: x.pointer, text: x.pointer_text });
    let r = Commit { files, reaction: Reaction { output, entries, events } };
    proof {
        let want = externalize_change(home@, ev.session_id@, ev.tool_input.tree(), content@, ts);
        assert(r.change().files =~= want.files);
        assert(r.change().effects.records =~= want.effects.records);
        assert(r.change().effects.events =~= want.effects.events);
    }
    r
}

/// Replacing a text by its skeleton: only where it has one, and only where that is smaller.
pub open spec fn skeleton_change(
    ev_cwd: Seq<char>,
    session: Seq<char>,
    tu_id: Option<Seq<char>>,
    tool_input: Tree,
    orig: Seq<char>,
    content: Seq<char>,
    ts: u64,
    lim: Limits,
) -> Option<Change> {
    match skeleton::skeleton_of(content, shown_path(ev_cwd, orig), lim) {
        None => None,
        Some(sk) => if byte_count(sk) >= byte_count(content) {
            None
        } else {
            let file = joined_path(storage::skeleton_path(ev_cwd), storage::skeleton_name(orig));
            Some(
                Change {
                    files: seq![(file, sk)],
                    effects: Effects {
                        reply: Reply::UpdatedInput(redirected(tool_input, file)),
                        records: seq![
                            Record::Rewrite {
                                ts,
                                session,
                                tool: "Read"@,
                                tu_id: match tu_id {
                                    Some(t) => t,
                                    None => Seq::empty(),
                                },
                                strategy: "skeleton"@,
                                orig_bytes: size(content),
                                new_bytes: size(sk),
                                saved: (byte_count(content) - byte_count(sk)) as usize,
                            },
                        ],
                        events: Seq::empty(),
                    },
                },
            )
        },
    }
}

/// Skeleton path of the decision table. Shared by the plain route and the
/// sandbox-fallback route (sandbox fails, then skeleton, then the file itself).
pub fn plan_skeleton(
    ev: &HookEvent,
    orig: &str,
    content: &str,
    ts: u64,
    limits: &Limits,
) -> (r: Option<Commit>)
    ensures
        planned(r) == skeleton_change(
            ev.cwd@,
            ev.session_id@,
            text::content(ev.tool_use_id),
            ev.tool_input.tree(),
            orig@,
            content@,
            ts,
            *limits,
        ),
{
    let rel = relative(ev.cwd.as_str(), orig);
    let sk = match skeleton::skeleton_within(content, rel.as_str(), limits) {
        Some(s) => s,
        None => {
            return None;
        },
    };
    let bytes = text::byte_len(content);
    let new_bytes = text::byte_len(sk.as_str());
    // A skeleton that is not smaller than the file gains nothing.
    if new_bytes >= bytes {
        return None;
    }
    let file = storage::derive_skeleton_path(ev.cwd.as_str(), orig);
    let tu_id = match &ev.tool_use_id {
        Some(t) => text::copy(t.as_str()),
        None => String::new(),
    };
    let ghost id = match text::content(ev.tool_use_id) {
        Some(t) => t,
        None => Seq::empty(),
    };
    assert(tu_id@ =~= id);
    let mut entries: Vec<Entry> = Vec::new();
    entries.push(
        Entry::Rewrite(
            RewriteEntry {
                ts,
                session: text::copy(ev.session_id.as_str()),
                tool: text::copy("Read"),
                tu_id,
                strategy: text::copy("skeleton"),
                orig_bytes: bytes,
                new_bytes,
                saved: bytes - new_bytes,
            },
        ),
    );
    let output = rewrite(&ev.tool_input, file.as_str());
    let mut files: Vec<FileWrite> = Vec::new();
    files.push(FileWrite { path: file, text: sk });
    let r = Commit { files, reaction: Reaction { output, entries, events: Vec::new() } };
    proof {
        let want = skeleton_change(
            ev.cwd@,
            ev.session_id@,
            text::content(ev.tool_use_id),
            ev.tool_input.tree(),
            orig@,
            content@,
            ts,
            *limits,
        )->0;
        assert(r.change().files =~= want.files);
        assert(r.change().effects.records =~= want.effects.records);
        assert(r.change().effects.events =~= want.effects.events);
    }
    Some(r)
}

/// Where the analysis scripts of a project lie.
pub open spec fn script_base(project: Seq<char>) -> Seq<char> {
    joined_path(project, ".tsk/sandbox"@)
}

/// The script that analyzes files of that extension, in one of the three languages.
pub open spec fn script_file(dir: Seq<char>, ext: Seq<char>, lang: Seq<char>) -> Seq<char> {
    joined_path(dir, "analyze_"@ + ext + "."@ + lang)
}

/// The scripts of one directory, in the order in which they are tried.
pub open spec fn scripts_in(dir: Seq<char>, ext: Seq<char>) -> Seq<Seq<char>> {
    seq![
        script_file(dir, ext, "sh"@),
        script_file(dir, ext, "py"@),
        script_file(dir, ext, "js"@),
    ]
}

/// The scripts that may analyze a file, in the order in which they are tried: those of the
/// project, then those of the global directory, where one is set.
pub open spec fn scripts_for(
    project: Seq<char>,
    ext: Seq<char>,
    global: Option<Seq<char>>,
) -> Seq<Seq<char>> {
    scripts_in(script_base(project), ext) + (match global {
        Some(dir) => scripts_in(dir, ext),
        None => Seq::empty(),
    })
}

fn push_scripts(out: &mut Vec<String>, dir: &str, ext: &str)
    ensures
        texts(final(out)@) == texts(old(out)@) + scripts_in(dir@, ext@),
{
    let ghost first = texts(out@);
    push_script(out, dir, ext, "sh");
    push_script(out, dir, ext, "py");
    push_script(out, dir, ext, "js");
    assert(texts(out@) =~= first + scripts_in(dir@, ext@));
}

fn push_script(out: &mut Vec<String>, dir: &str, ext: &str, lang: &str)
    ensures
        texts(final(out)@) == texts(old(out)@).push(script_file(dir@, ext@, lang@)),
{
    let mut name = text::copy("analyze_");
    name.append(ext);
    name.append(".");
    name.append(lang);
    let s = path::join(dir, name.as_str());
    proof {
        text::lemma_texts_push(out@, s);
    }
    out.push(s);
}

/// The scripts that may analyze a file of that extension, in the order in which they are
/// tried: `<project>/.tsk/sandbox/analyze_<ext>.{sh,py,js}`, then the same names in the
/// global directory, which keeps TSK's scripts out of the workspace that the model sees.
pub fn sandbox_scripts(project: &str, ext: &str, global: Option<&str>) -> (r: Vec<String>)
    ensures
        texts(r@) == scripts_for(project@, ext@, json::shown(global)),
{
    let mut out: Vec<String> = Vec::new();
    assert(texts(out@) =~= Seq::empty());
    let base = path::join(project, ".tsk/sandbox");
    push_scripts(&mut out, base.as_str(), ext);
    if let Some(dir) = global {
        push_scripts(&mut out, dir, ext);
    }
    assert(texts(out@) =~= scripts_for(project@, ext@, json::shown(global)));
    out
}

/// Replacing a text by the conclusions of its analysis: only where there are any, and only
/// where they are smaller than the text.
pub open spec fn sandbox_change(
    home: Seq<char>,
    session: Seq<char>,
    tool_input: Tree,
    ext: Seq<char>,
    bytes: usize,
    stdout: Seq<char>,
    ts: u64,
    lim: Limits,
) -> Option<Change> {
    let summary = sandbox::shown(home, session, stdout, lim);
    if text::trimmed(stdout).len() == 0 || byte_count(summary) >= bytes {
        None
    } else {
        let file = joined_path(
            ext_path(home, session),
            text_digest(summary) + ".summary.txt"@,
        );
        Some(
            Change {
                files: seq![(file, summary)],
                effects: Effects {
                    reply: Reply::UpdatedInput(redirected(tool_input, file)),
                    records: seq![
                        Record::Sandbox {
                            ts,
                            session,
                            tool: "Read"@,
                            orig_bytes: bytes,
                            new_bytes: size(summary),
                            saved: (bytes - byte_count(summary)) as usize,
                        },
                    ],
                    events: seq![
                        "sandbox: analyze_"@ + ext + " -> "@ + decimal_of(bytes as nat) + " -> "@
                            + decimal_of(byte_count(summary)) + " bytes"@,
                    ],
                },
            },
        )
    }
}

/// The file that keeps the whole of a script's output: there is one where the output is too
/// large to be shown, whether or not its conclusions are used.
pub open spec fn kept_output(
    home: Seq<char>,
    session: Seq<char>,
    stdout: Seq<char>,
    lim: Limits,
) -> Option<(Seq<char>, Seq<char>)> {
    if text::trimmed(stdout).len() > 0 && byte_count(stdout) > lim.sandbox_max_output {
        Some((sandbox::output_file(home, session, stdout), stdout))
    } else {
        None
    }
}

/// What an optional file holds.
pub open spec fn filed(f: Option<FileWrite>) -> Option<(Seq<char>, Seq<char>)> {
    match f {
        Some(f) => Some(f.says()),
        None => None,
    }
}

/// What comes of an analysis: the file that keeps the whole output, which is written as well
/// as it can be, and the plan, where the conclusions help.
#[derive(Debug, PartialEq)]
pub struct Analysis {
    pub keep: Option<FileWrite>,
    pub plan: Option<Commit>,
}

/// The conclusions that the project's `analyze_<ext>` script printed go to
/// `ext/<sha1>.summary.txt`, which becomes the Read target. `bytes` is the size of the file
/// that was analyzed. No plan means that the sandbox does not help: fall back to the skeleton.
pub fn try_sandbox_plan(
    ev: &HookEvent,
    home: &str,
    ext: &str,
    bytes: usize,
    stdout: &str,
    ts: u64,
    limits: &Limits,
) -> (r: Analysis)
    ensures
        filed(r.keep) == kept_output(home@, ev.session_id@, stdout@, *limits),
        planned(r.plan) == sandbox_change(
            home@,
            ev.session_id@,
            ev.tool_input.tree(),
            ext@,
            bytes,
            stdout@,
            ts,
            *limits,
        ),
{
    if text::trim(stdout).as_str().is_empty() {
        return Analysis { keep: None, plan: None };
    }
    let session = ev.session_id.as_str();
    let clipped = sandbox::clip(home, session, stdout, limits);
    let new_bytes = text::byte_len(clipped.shown.as_str());
    // Conclusions that are not smaller than the file gain nothing.
    if new_bytes >= bytes {
        return Analysis { keep: clipped.full, plan: None };
    }
    let mut name = storage::digest_text(clipped.shown.as_str());
    name.append(".summary.txt");
    let file = path::join(storage::ext_dir(home, session).as_str(), name.as_str());
    let mut entries: Vec<Entry> = Vec::new();
    entries.push(
        Entry::Sandbox(
            SandboxEntry {
                ts,
                session: text::copy(session),
                tool: text::copy("Read"),
                orig_bytes: bytes,
                new_bytes,
                saved: bytes - new_bytes,
            },
        ),
    );
    let mut event = text::copy("sandbox: analyze_");
    event.append(ext);
    event.append(" -> ");
    event.append(number::decimal(bytes as u64).as_str());
    event.append(" -> ");
    event.append(number::decimal(new_bytes as u64).as_str());
    event.append(" bytes");
    let mut events: Vec<String> = Vec::new();
    events.push(event);
    let output = rewrite(&ev.tool_input, file.as_str());
    let mut files: Vec<FileWrite> = Vec::new();
    files.push(FileWrite { path: file, text: clipped.shown });
    let plan = Commit { files, reaction: Reaction { output, entries, events } };
    proof {
        let want = sandbox_change(
            home@,
            session@,
            ev.tool_input.tree(),
            ext@,
            bytes,
            stdout@,
            ts,
            *limits,
        )->0;
        assert(plan.change().files =~= want.files);
        assert(plan.change().effects.records =~= want.effects.records);
        assert(plan.change().effects.events =~= want.effects.events);
    }
    Analysis { keep: clipped.full, plan: Some(plan) }
}

/// What is done with a file that was read.
#[derive(Debug, PartialEq)]
pub enum Choice {
    /// Answer.
    Done(Reaction),
    /// Write and answer.
    Commit(Commit),
    /// Try the analysis scripts for this extension, then the skeleton.
    Analyze(String),
}

/// What a choice says.
pub enum Chosen {
    Done(Effects),
    Commit(Change),
    Analyze(Seq<char>),
}

impl Choice {
    /// What the choice says.
    pub open spec fn chosen(self) -> Chosen {
        match self {
            Choice::Done(r) => Chosen::Done(r.effects()),
            Choice::Commit(c) => Chosen::Commit(c.change()),
            Choice::Analyze(e) => Chosen::Analyze(e@),
        }
    }
}

/// What is done with a file that was read: an empty one passes; a large one is externalized,
/// whatever its lines; an aggregate of middling size may be analyzed by a script; any other
/// gets its skeleton, or passes where it has none that is smaller.
pub open spec fn choice_for(
    home: Seq<char>,
    session: Seq<char>,
    cwd: Seq<char>,
    tu_id: Option<Seq<char>>,
    tool_input: Tree,
    orig: Seq<char>,
    content: Seq<char>,
    ts: u64,
    lim: Limits,
) -> Chosen {
    let bytes = byte_count(content);
    let ext = shown_ext(orig);
    if bytes == 0 {
        Chosen::Done(nothing())
    } else {
        match policy::plan_for(Some(bytes as usize), ext, lim) {
            policy::Plan::Externalize => Chosen::Commit(
                externalize_change(home, session, tool_input, content, ts),
            ),
            policy::Plan::Sandbox => Chosen::Analyze(ext),
            policy::Plan::Skeleton => match skeleton_change(
                cwd,
                session,
                tu_id,
                tool_input,
                orig,
                content,
                ts,
                lim,
            ) {
                Some(c) => Chosen::Commit(c),
                None => Chosen::Done(nothing()),
            },
        }
    }
}

/// What is done with the file `orig`, whose text is `content`.
pub fn loaded(
    ev: &HookEvent,
    home: &str,
    orig: &str,
    content: &str,
    ts: u64,
    limits: &Limits,
) -> (r: Choice)
    ensures
        r.chosen() == choice_for(
            home@,
            ev.session_id@,
            ev.cwd@,
            text::content(ev.tool_use_id),
            ev.tool_input.tree(),
            orig@,
            content@,
            ts,
            *limits,
        ),
{
    let bytes = text::byte_len(content);
    if bytes == 0 {
        return Choice::Done(Reaction::passthrough());
    }
    let ext = extension_or_empty(orig);
    match policy::route_within(Some(bytes), ext.as_str(), limits) {
        policy::Plan::Externalize => Choice::Commit(plan_externalize(ev, home, content, ts)),
        policy::Plan::Sandbox => Choice::Analyze(ext),
        policy::Plan::Skeleton => match plan_skeleton(ev, orig, content, ts, limits) {
            Some(c) => Choice::Commit(c),
            None => Choice::Done(Reaction::passthrough()),
        },
    }
}

/// The plans for a file that may be analyzed, in the order in which they are tried: the
/// conclusions of the script, where one ran, then the skeleton.
pub open spec fn fallback_changes(
    sandboxed: Option<Change>,
    skeletal: Option<Change>,
) -> Seq<Change> {
    match (sandboxed, skeletal) {
        (Some(a), Some(b)) => seq![a, b],
        (Some(a), None) => seq![a],
        (None, Some(b)) => seq![b],
        (None, None) => Seq::empty(),
    }
}

/// What the commits say.
pub open spec fn changes(commits: Seq<Commit>) -> Seq<Change> {
    commits.map_values(|c: Commit| c.change())
}

/// The plans for a file, in the order in which they are tried; the first whose files can be
/// written is the answer, and where none can, the file itself is read. What is to be kept of
/// a script's output is written first, as well as it can be.
#[derive(Debug, PartialEq)]
pub struct Plans {
    pub keep: Option<FileWrite>,
    pub commits: Vec<Commit>,
}

/// The plans for a file. `stdout` is what the analysis script printed, where one was found
/// and ran.
pub fn fallbacks(
    ev: &HookEvent,
    home: &str,
    orig: &str,
    content: &str,
    stdout: Option<&str>,
    ts: u64,
    limits: &Limits,
) -> (r: Plans)
    ensures
        filed(r.keep) == (match stdout {
            Some(s) => kept_output(home@, ev.session_id@, s@, *limits),
            None => None,
        }),
        changes(r.commits@) == fallback_changes(
            match stdout {
                Some(s) => sandbox_change(
                    home@,
                    ev.session_id@,
                    ev.tool_input.tree(),
                    shown_ext(orig@),
                    size(content@),
                    s@,
                    ts,
                    *limits,
                ),
                None => None,
            },
            skeleton_change(
                ev.cwd@,
                ev.session_id@,
                text::content(ev.tool_use_id),
                ev.tool_input.tree(),
                orig@,
                content@,
                ts,
                *limits,
            ),
        ),
{
    let analysis = match stdout {
        Some(s) => {
            let ext = extension_or_empty(orig);
            let bytes = text::byte_len(content);
            try_sandbox_plan(ev, home, ext.as_str(), bytes, s, ts, limits)
        },
        None => Analysis { keep: None, plan: None },
    };
    let ghost sandboxed = planned(analysis.plan);
    let skeletal = plan_skeleton(ev, orig, content, ts, limits);
    let ghost plain = planned(skeletal);
    let mut commits: Vec<Commit> = Vec::new();
    if let Some(c) = analysis.plan {
        commits.push(c);
    }
    let ghost had = changes(commits@);
    if let Some(c) = skeletal {
        commits.push(c);
        assert(changes(commits@) =~= had.push(c.change()));
    }
    assert(changes(commits@) =~= fallback_changes(sandboxed, plain));
    Plans { keep: analysis.keep, commits }
}

/// A skeleton is used only where it is smaller than the file, and what the ledger calls saved
/// is the difference.
pub proof fn lemma_skeleton_smaller(
    cwd: Seq<char>,
    session: Seq<char>,
    tu_id: Option<Seq<char>>,
    tool_input: Tree,
    orig: Seq<char>,
    content: Seq<char>,
    ts: u64,
    lim: Limits,
)
    ensures
        skeleton_change(cwd, session, tu_id, tool_input, orig, content, ts, lim) matches Some(c) ==> {
            &&& c.files.len() == 1
            &&& byte_count(c.files[0].1) < byte_count(content)
            &&& c.effects.records.len() == 1
            &&& c.effects.records[0] matches Record::Rewrite { saved, .. }
            &&& byte_count(content) <= usize::MAX ==> saved + byte_count(c.files[0].1)
                == byte_count(content)
        },
{
}

/// The conclusions of a script are used only where they are smaller than the file, and what
/// the ledger calls saved is the difference.
pub proof fn lemma_summary_smaller(
    home: Seq<char>,
    session: Seq<char>,
    tool_input: Tree,
    ext: Seq<char>,
    bytes: usize,
    stdout: Seq<char>,
    ts: u64,
    lim: Limits,
)
    ensures
        sandbox_change(home, session, tool_input, ext, bytes, stdout, ts, lim) matches Some(c) ==> {
            &&& c.files.len() == 1
            &&& byte_count(c.files[0].1) < bytes
            &&& c.effects.records.len() == 1
            &&& c.effects.records[0] matches Record::Sandbox { saved, .. }
            &&& saved + byte_count(c.files[0].1) == bytes
        },
{
}

/// The pointer of an externalized file is smaller than the file, as long as the path of the
/// copy that it names leaves it room.
pub proof fn lemma_pointer_smaller(
    home: Seq<char>,
    session: Seq<char>,
    tool_input: Tree,
    content: Seq<char>,
    ts: u64,
)
    requires
        byte_count(externalize::full_file(home, session, content)) + 2000 <= byte_count(content)
            <= u64::MAX,
    ensures
        ({
            let c = externalize_change(home, session, tool_input, content, ts);
            &&& c.files.len() == 2
            &&& c.files[0].1 == content
            &&& byte_count(c.files[1].1) < byte_count(content)
            &&& c.effects.reply == Reply::UpdatedInput(redirected(tool_input, c.files[1].0))
        }),
{
    externalize::lemma_pointer_smaller(externalize::full_file(home, session, content), content);
}

/// An explicit offset or limit is never compressed: the file is not even read, and the answer
/// is to go ahead.
pub proof fn lemma_escape_hatch(
    cfg: Config,
    tool_name: Option<Seq<char>>,
    tool_input: Tree,
    home: Seq<char>,
    session: Seq<char>,
    orig: Seq<char>,
    bytes: Option<usize>,
    ts: u64,
)
    requires
        policy::escapes(tool_input),
    ensures
        !(first_step(cfg, tool_name, tool_input, home, session) is Load),
        first_step(cfg, tool_name, tool_input, home, session) matches Next::Done(e) ==> e.reply
            == Reply::Passthrough,
        escape_effects(session, orig, bytes, ts).reply == Reply::Passthrough,
{
}

/// Only a `Read` is ever rewritten: for another tool nothing is loaded, answered or recorded.
pub proof fn lemma_only_read(
    cfg: Config,
    tool_name: Seq<char>,
    tool_input: Tree,
    home: Seq<char>,
    session: Seq<char>,
)
    requires
        tool_name != "Read"@,
    ensures
        first_step(cfg, Some(tool_name), tool_input, home, session) == Next::Done(nothing()),
{
}

/// When TSK is off a tool call passes, and neither its result nor a prompt nor the start of a
/// session says or records anything.
pub proof fn lemma_disabled(
    cfg: Config,
    seen: Seen,
    tool_name: Option<Seq<char>>,
    tool_use_id: Option<Seq<char>>,
    tool_input: Tree,
    home: Seq<char>,
    session: Seq<char>,
    source: Option<Seq<char>>,
    snap: Option<snapshot::Notes>,
    ts: u64,
    lim: Limits,
)
    requires
        !cfg.enabled,
    ensures
        observed(cfg, tool_name, tool_use_id) == nothing(),
        first_step(cfg, tool_name, tool_input, home, session) == Next::Done(nothing()),
        prompt_effects(cfg, seen, session, ts, lim) == nothing(),
        start_effects(cfg, source, snap, session, ts, lim) == nothing(),
{
}

/// Without a compression level no style is ever injected: a prompt carries at most the advice
/// to compact, the start of a session at most what it resumes.
pub proof fn lemma_level_off(
    cfg: Config,
    seen: Seen,
    source: Option<Seq<char>>,
    snap: Option<snapshot::Notes>,
    lim: Limits,
)
    requires
        cfg.output_compression == CompressionLevel::Off,
    ensures
        prompt_context(cfg, seen, lim) == Seq::<char>::empty() || prompt_context(cfg, seen, lim)
            == COMPACT_ADVICE@,
        !comes_back(source) || snap is None ==> start_context(cfg, source, snap, lim).len() == 0,
{
}

/// Rewriting a call changes the file it names and no other argument.
pub proof fn lemma_redirected(tool_input: Tree, new_path: Seq<char>, key: Seq<char>)
    ensures
        key != "file_path"@ ==> field(redirected(tool_input, new_path), key) == field(
            tool_input,
            key,
        ),
        tool_input is Object ==> target(redirected(tool_input, new_path)) == Some(new_path),
{
}

/// The lines that events leave in the log, each with the time at which it was written.
pub open spec fn logged(times: Seq<u64>, events: Seq<Seq<char>>) -> Seq<char>
    decreases events.len(),
{
    if events.len() == 0 {
        Seq::empty()
    } else {
        logged(times, events.drop_last()) + event_line(times[events.len() - 1], events.last())
    }
}

/// The usage that counts is that of the last assistant turn of the transcript, whatever other
/// records follow it.
pub proof fn lemma_last_usage(lines: Seq<Seq<char>>, k: int, t: Tree, u: Tree)
    requires
        0 <= k < lines.len(),
        json::parsed(lines[k]) == Ok::<Tree, Seq<char>>(t),
        snapshot::typed(t, "assistant"@),
        inner(t, "message"@, "usage"@) == Some(u),
        forall|i: int|
            k < i < lines.len() ==> (json::parsed(#[trigger] lines[i]) matches Ok(o)
                && !snapshot::typed(o, "assistant"@)),
    ensures
        last_usage(lines) == Some(usage_sum(u)),
    decreases lines.len(),
{
    if k < lines.len() - 1 {
        let front = lines.drop_last();
        assert(json::parsed(lines[lines.len() - 1]) is Ok);
        assert forall|i: int| k < i < front.len() implies (json::parsed(
            #[trigger] front[i],
        ) matches Ok(o) && !snapshot::typed(o, "assistant"@)) by {
            assert(front[i] == lines[i]);
        }
        lemma_last_usage(front, k, t, u);
    }
}

/// Where a turn wrote nothing to the cache, its usage is its input and what it read there.
pub proof fn lemma_usage_without_writes(u: Tree)
    requires
        field(u, "cache_creation_input_tokens"@) is None,
    ensures
        usage_sum(u) == saturated(
            json::number_or_zero(field(u, "input_tokens"@)),
            json::number_or_zero(field(u, "cache_read_input_tokens"@)),
        ),
{
}

/// A prompt carries the advice to compact exactly when it is due: TSK is on, the usage of the
/// last turn is above the threshold, and the log shows no advice yet. Then, and only then, the
/// prompt leaves an event that says so, and leaves one.
pub proof fn lemma_advice_shown(cfg: Config, seen: Seen, lim: Limits)
    ensures
        holds(prompt_context(cfg, seen, lim), COMPACT_ADVICE@) <==> advises(cfg, seen, lim),
        forall|i: int|
            0 <= i < prompt_events(cfg, seen, lim).len() ==> (holds(
                #[trigger] prompt_events(cfg, seen, lim)[i],
                "compact_advice"@,
            ) <==> advises(cfg, seen, lim) && i == prompt_events(cfg, seen, lim).len() - 1),
        advises(cfg, seen, lim) ==> prompt_events(cfg, seen, lim).len() > 0 && prompt_events(
            cfg,
            seen,
            lim,
        ).last() == advice_event(),
{
    let ctx = prompt_context(cfg, seen, lim);
    let s = style(cfg, seen);
    assets::lemma_style_without_advice();
    reveal_strlit("Context is above 180k tokens; consider running /compact.");
    if advises(cfg, seen, lim) {
        assert(COMPACT_ADVICE@.subrange(0, COMPACT_ADVICE@.len() as int) =~= COMPACT_ADVICE@);
        assert(found_at(COMPACT_ADVICE@, COMPACT_ADVICE@, 0));
        if s.len() > 0 {
            text::lemma_has_concat(s + "\n"@, COMPACT_ADVICE@, COMPACT_ADVICE@);
        }
    } else {
        assert(ctx == s);
        assert(s.len() == 0 ==> !holds(s, COMPACT_ADVICE@));
    }
    lemma_turn_is_no_advice();
    lemma_advice_event();
    let events = prompt_events(cfg, seen, lim);
    assert forall|i: int| 0 <= i < events.len() implies (holds(
        #[trigger] events[i],
        "compact_advice"@,
    ) <==> advises(cfg, seen, lim) && i == events.len() - 1) by {
        if !(advises(cfg, seen, lim) && i == events.len() - 1) {
            assert(events[i] == turn_event());
        }
    }
}

proof fn lemma_turn_is_no_advice()
    ensures
        !holds(turn_event(), "compact_advice"@),
{
    reveal_strlit("compact_advice");
    reveal_strlit("prompt_turn: user message submitted");
    let pat = "compact_advice"@;
    if holds(turn_event(), pat) {
        let i = choose|i: int| found_at(turn_event(), pat, i);
        assert(turn_event().subrange(i, i + pat.len())[0] == turn_event()[i]);
        assert(pat[0] == 'c');
    }
}

proof fn lemma_advice_event()
    ensures
        holds(advice_event(), "compact_advice"@),
        flat(advice_event()) == advice_event(),
{
    reveal_strlit("compact_advice");
    reveal_strlit("compact_advice: context above 180k, /compact suggested");
    let body = advice_event();
    let pat = "compact_advice"@;
    assert(flat(body) =~= body);
    assert(body.subrange(0, 14) =~= pat);
    assert(found_at(body, pat, 0));
}

/// The advice to compact is given at most once: what the prompt leaves in the log silences it
/// for good, whatever is added to the log and whatever the settings become.
pub proof fn lemma_advice_once(
    cfg: Config,
    seen: Seen,
    lim: Limits,
    times: Seq<u64>,
    more: Seq<char>,
    later_cfg: Config,
    later: Seen,
    later_lim: Limits,
)
    requires
        advises(cfg, seen, lim),
        later.log == seen.log + logged(times, prompt_events(cfg, seen, lim)) + more,
    ensures
        !advises(later_cfg, later, later_lim),
        !holds(prompt_context(later_cfg, later, later_lim), COMPACT_ADVICE@),
{
    let events = prompt_events(cfg, seen, lim);
    let pat = "compact_advice"@;
    let ts = times[events.len() - 1];
    let body = advice_event();
    lemma_advice_shown(cfg, seen, lim);
    lemma_advice_event();
    let head = "["@ + stamp_of(ts) + "] "@;
    text::lemma_has_concat(head, body, pat);
    text::lemma_has_concat(head + body, "\n"@, pat);
    let lines = logged(times, events);
    text::lemma_has_concat(logged(times, events.drop_last()), event_line(ts, body), pat);
    assert(holds(lines, pat));
    text::lemma_has_concat(seen.log, lines, pat);
    text::lemma_has_concat(seen.log + lines, more, pat);
    lemma_advice_shown(later_cfg, later, later_lim);
}

/// In `auto` mode the ruleset is injected at most once: the ledger shows where the prompt's
/// injections came from, and from then on no prompt carries the ruleset, whatever is added to
/// the ledger.
pub proof fn lemma_ruleset_once(
    cfg: Config,
    seen: Seen,
    session: Seq<char>,
    ts: u64,
    added: Seq<char>,
    more: Seq<char>,
    later_cfg: Config,
    later: Seen,
    lim: Limits,
)
    requires
        opens(cfg, seen),
        ledger::shows_source(added, prompt_records(cfg, seen, session, ts, lim)[0]),
        later.ledger == seen.ledger + added + more,
    ensures
        !opens(later_cfg, later),
{
    reveal_strlit("auto_ruleset");
    let opening = seq![
        injection(ts, session, "auto_ruleset"@, size(ruleset(cfg.output_compression))),
    ];
    let all = prompt_records(cfg, seen, session, ts, lim);
    assert(all[0] == opening[0]);
    assert(json::plain("auto_ruleset"@));
    assert(holds(added, "auto_ruleset"@));
    lemma_ruleset_stays(seen.ledger, added, more);
}

/// A ruleset injected at the start of a session is not injected again by a prompt.
pub proof fn lemma_start_ruleset_once(
    cfg: Config,
    source: Option<Seq<char>>,
    snap: Option<snapshot::Notes>,
    session: Seq<char>,
    ts: u64,
    before: Seq<char>,
    added: Seq<char>,
    more: Seq<char>,
    later_cfg: Config,
    later: Seen,
    lim: Limits,
)
    requires
        rules(cfg),
        ledger::shows_source(added, start_effects(cfg, source, snap, session, ts, lim).records[0]),
        later.ledger == before + added + more,
    ensures
        !opens(later_cfg, later),
{
    reveal_strlit("session_start_ruleset");
    let first = injection(
        ts,
        session,
        "session_start_ruleset"@,
        size(ruleset(cfg.output_compression)),
    );
    assert(start_effects(cfg, source, snap, session, ts, lim).records[0] == first);
    assert(json::plain("session_start_ruleset"@));
    assert(holds(added, "session_start_ruleset"@));
    lemma_ruleset_stays(before, added, more);
}

proof fn lemma_ruleset_stays(before: Seq<char>, added: Seq<char>, more: Seq<char>)
    requires
        ruleset_seen(added),
    ensures
        ruleset_seen(before + added + more),
{
    text::lemma_has_concat(before, added, "auto_ruleset"@);
    text::lemma_has_concat(before, added, "session_start_ruleset"@);
    text::lemma_has_concat(before + added, more, "auto_ruleset"@);
    text::lemma_has_concat(before + added, more, "session_start_ruleset"@);
}

/// Every prompt in `auto` mode adds one turn to those that the log shows.
pub proof fn lemma_turn_counted(log: Seq<char>, ts: u64)
    ensures
        turns_in(log + event_line(ts, turn_event())) == turns_in(log) + 1,
{
    let pat = "prompt_turn"@;
    let body = turn_event();
    let stamp = stamp_of(ts);
    let head = "["@ + stamp + "] "@;
    let line = event_line(ts, body);
    reveal_strlit("prompt_turn");
    reveal_strlit("prompt_turn: user message submitted");
    reveal_strlit("[");
    reveal_strlit("] ");
    reveal_strlit("\n");
    assert(flat(body) =~= body);
    assert(!head.contains('p')) by {
        if head.contains('p') {
            let i = head.index_of('p');
            if 1 <= i < 1 + stamp.len() {
                assert(head[i] == stamp[i - 1]);
                calendar::lemma_stamp_plain(ts, i - 1);
            }
        }
    }
    assert(pat[0] == 'p');
    text::lemma_occurrences_none(head, pat);
    let rest = body + "\n"@;
    assert(line =~= head + rest);
    // The line feed, the time stamp and the brackets stand in no turn marker.
    let tail = rest.skip(11);
    assert(rest.subrange(0, 11) =~= pat);
    assert(text::begins(rest, pat));
    assert(!tail.contains('p')) by {
        assert(tail.len() == 25);
    }
    text::lemma_occurrences_none(tail, pat);
    assert(occurrences(rest, pat) == 1);
    assert(occurrences(line, pat) == 1) by {
        lemma_skip_head(head, rest, pat);
    }
    assert(line[0] == '[');
    assert(!pat.contains('['));
    text::lemma_occurrences_concat(log, line, pat);
}

proof fn lemma_skip_head(head: Seq<char>, rest: Seq<char>, pat: Seq<char>)
    requires
        pat.len() > 0,
        !head.contains(pat[0]),
    ensures
        occurrences(head + rest, pat) == occurrences(rest, pat),
    decreases head.len(),
{
    let s = head + rest;
    if head.len() == 0 {
        assert(s =~= rest);
    } else {
        assert(head[0] != pat[0]);
        assert(!text::begins(s, pat)) by {
            if text::begins(s, pat) {
                assert(s.subrange(0, pat.len() as int)[0] == head[0]);
            }
        }
        assert(!head.skip(1).contains(pat[0])) by {
            if head.skip(1).contains(pat[0]) {
                let i = head.skip(1).index_of(pat[0]);
                assert(head[i + 1] == pat[0]);
            }
        }
        assert(s.skip(1) =~= head.skip(1) + rest);
        text::lemma_occurrences_step(s, pat);
        lemma_skip_head(head.skip(1), rest, pat);
    }
}

/// In `auto` mode a prompt carries no style before the log shows two turns.
pub proof fn lemma_auto_waits(cfg: Config, seen: Seen)
    requires
        cfg.output_compression == CompressionLevel::Auto,
        turns_in(seen.log) < AUTO_TURNS,
    ensures
        style(cfg, seen).len() == 0,
{
}

/// Reading an externalized text back passes: neither the file that keeps it whole nor its
/// pointer is ever compressed again.
pub proof fn lemma_read_back_passes(
    cfg: Config,
    tool_name: Option<Seq<char>>,
    tool_input: Tree,
    home: Seq<char>,
    session: Seq<char>,
    content: Seq<char>,
)
    requires
        target(tool_input) == Some(externalize::full_file(home, session, content)) || target(
            tool_input,
        ) == Some(externalize::pointer_file(home, session, content)),
    ensures
        !(first_step(cfg, tool_name, tool_input, home, session) is Load),
{
    externalize::lemma_read_back(home, session, content);
}

/// Reading the conclusions of a script, or the whole of its output, passes as well.
pub proof fn lemma_summary_read_passes(
    cfg: Config,
    tool_name: Option<Seq<char>>,
    tool_input: Tree,
    home: Seq<char>,
    session: Seq<char>,
    summary: Seq<char>,
)
    requires
        target(tool_input) == Some(
            joined_path(ext_path(home, session), text_digest(summary) + ".summary.txt"@),
        ) || target(tool_input) == Some(sandbox::output_file(home, session, summary)),
    ensures
        !(first_step(cfg, tool_name, tool_input, home, session) is Load),
{
    reveal_strlit(".summary.txt");
    reveal_strlit(".txt");
    externalize::lemma_kept_under_ext(home, session, summary, ".summary.txt"@);
    externalize::lemma_kept_under_ext(home, session, summary, ".txt"@);
}

/// Where output compression is on, and in auto mode the log shows two turns or more, however
/// many, the context of the prompt holds the reinforcement, the hook is answered with it, and
/// its bytes are recorded.
#[verifier::spinoff_prover]
#[verifier::rlimit(30)]
pub proof fn lemma_reinforced(
    cfg: Config,
    seen: Seen,
    session: Seq<char>,
    ts: u64,
    lim: Limits,
)
    requires
        cfg.enabled,
        cfg.output_compression != CompressionLevel::Off,
        cfg.output_compression == CompressionLevel::Auto ==> occurrences(seen.log, "prompt_turn"@)
            >= 2,
    ensures
        holds(prompt_context(cfg, seen, lim), REINFORCE@),
        prompt_effects(cfg, seen, session, ts, lim).reply == Reply::Context(
            Event::UserPromptSubmit,
            prompt_context(cfg, seen, lim),
        ),
        prompt_effects(cfg, seen, session, ts, lim).records.contains(
            Record::Inject {
                ts,
                session,
                source: "per_turn_reinforce"@,
                bytes: byte_count(REINFORCE@) as usize,
            },
        ),
{
    assets::lemma_reinforce_says();
    lemma_style_shown(cfg, seen, lim, REINFORCE@);
    let records = prompt_records(cfg, seen, session, ts, lim);
    let k: int = if opens(cfg, seen) {
        1
    } else {
        0
    };
    assert(records[k] == injection(ts, session, "per_turn_reinforce"@, size(REINFORCE@)));
}

proof fn lemma_style_shown(cfg: Config, seen: Seen, lim: Limits, told: Seq<char>)
    requires
        styles(cfg, seen),
        told == REINFORCE@,
        told.len() > 0,
    ensures
        holds(prompt_context(cfg, seen, lim), told),
{
    let rules = ruleset(cfg.output_compression);
    let s = style(cfg, seen);
    lemma_end_held(rules, told);
    assert(s.len() > 0);
    text::lemma_has_concat(s, "\n"@, told);
    text::lemma_has_concat(s + "\n"@, COMPACT_ADVICE@, told);
}

proof fn lemma_end_held(a: Seq<char>, b: Seq<char>)
    ensures
        holds(a + b, b),
        holds(b, b),
{
    assert((a + b).subrange(a.len() as int, (a.len() + b.len()) as int) =~= b);
    assert(found_at(a + b, b, a.len() as int));
    assert(b.subrange(0, b.len() as int) =~= b);
    assert(found_at(b, b, 0));
}

/// More turns in the log never take the reinforcement away.
pub proof fn lemma_reinforcement_stays(
    cfg: Config,
    seen: Seen,
    more: Seq<char>,
    later: Seen,
    lim: Limits,
)
    requires
        holds(style(cfg, seen), REINFORCE@),
        later.log == seen.log + more,
    ensures
        holds(prompt_context(cfg, later, lim), REINFORCE@),
{
    assets::lemma_reinforce_says();
    assert(styles(cfg, seen)) by {
        let i = choose|i: int| found_at(style(cfg, seen), REINFORCE@, i);
        assert(style(cfg, seen).len() > 0);
    }
    text::lemma_occurrences_grow(seen.log, more, "prompt_turn"@);
    lemma_reinforced(cfg, later, Seq::empty(), 0, lim);
}

/// Outside auto mode the reinforcement goes with every prompt or with none; in auto mode it
/// waits for the second turn. Where it is left out, no style is.
pub proof fn lemma_not_reinforced(
    cfg: Config,
    seen: Seen,
    session: Seq<char>,
    ts: u64,
    lim: Limits,
    i: int,
)
    requires
        !cfg.enabled || cfg.output_compression == CompressionLevel::Off || (cfg.output_compression
            == CompressionLevel::Auto && occurrences(seen.log, "prompt_turn"@) < 2),
        0 <= i < prompt_records(cfg, seen, session, ts, lim).len(),
    ensures
        prompt_context(cfg, seen, lim) == COMPACT_ADVICE@,
        i == 0,
        prompt_records(cfg, seen, session, ts, lim)[i] == (Record::Inject {
            ts,
            session,
            source: "compact_advice"@,
            bytes: byte_count(COMPACT_ADVICE@) as usize,
        }),
{
}

/// In auto mode the first prompt that gets the reinforcement gets the ruleset before it, and
/// the ledger records it; once the ledger shows a ruleset, only the reinforcement is given.
pub proof fn lemma_auto_ruleset(
    cfg: Config,
    seen: Seen,
    session: Seq<char>,
    ts: u64,
    lim: Limits,
)
    requires
        cfg.enabled,
        cfg.output_compression == CompressionLevel::Auto,
        occurrences(seen.log, "prompt_turn"@) >= 2,
    ensures
        !holds(seen.ledger, "auto_ruleset"@) && !holds(seen.ledger, "session_start_ruleset"@) ==> {
            &&& text::begins(prompt_context(cfg, seen, lim), RULESET@ + REINFORCE@)
            &&& prompt_records(cfg, seen, session, ts, lim)[0] == (Record::Inject {
                ts,
                session,
                source: "auto_ruleset"@,
                bytes: byte_count(RULESET@) as usize,
            })
        },
        holds(seen.ledger, "auto_ruleset"@) || holds(seen.ledger, "session_start_ruleset"@) ==> {
            &&& text::begins(prompt_context(cfg, seen, lim), REINFORCE@)
            &&& prompt_records(cfg, seen, session, ts, lim)[0] == (Record::Inject {
                ts,
                session,
                source: "per_turn_reinforce"@,
                bytes: byte_count(REINFORCE@) as usize,
            })
        },
{
    let ctx = prompt_context(cfg, seen, lim);
    let s = style(cfg, seen);
    assets::lemma_reinforce_says();
    assert(ctx.subrange(0, s.len() as int) =~= s);
    assert(found_at(ctx, s, 0));
}

/// What the ledger records of a prompt is what the prompt was given: the bytes of the records
/// add up to those of the context, but for the line feed before the advice.
#[verifier::spinoff_prover]
#[verifier::rlimit(30)]
pub proof fn lemma_prompt_accounted(
    cfg: Config,
    seen: Seen,
    session: Seq<char>,
    ts: u64,
    lim: Limits,
)
    requires
        byte_count(prompt_context(cfg, seen, lim)) <= usize::MAX,
    ensures
        injected(prompt_records(cfg, seen, session, ts, lim)) == byte_count(
            prompt_context(cfg, seen, lim),
        ) || injected(prompt_records(cfg, seen, session, ts, lim)) + 1 == byte_count(
            prompt_context(cfg, seen, lim),
        ) && prompt_records(cfg, seen, session, ts, lim).len() > 1,
{
    reveal_with_fuel(injected, 4);
    let records = prompt_records(cfg, seen, session, ts, lim);
    let ctx = prompt_context(cfg, seen, lim);
    let s = style(cfg, seen);
    let rules = ruleset(cfg.output_compression);
    let none = Seq::<Record>::empty();
    assets::lemma_reinforce_says();
    text::lemma_byte_count_concat(rules, REINFORCE@);
    text::lemma_byte_count_concat(s, "\n"@);
    text::lemma_byte_count_concat(s + "\n"@, COMPACT_ADVICE@);
    lemma_line_feed_byte();
    lemma_no_bytes();
    let a = injection(ts, session, "auto_ruleset"@, size(rules));
    let b = injection(ts, session, "per_turn_reinforce"@, size(REINFORCE@));
    let c = injection(ts, session, "compact_advice"@, size(COMPACT_ADVICE@));
    assert(none.push(b).drop_last() =~= none);
    assert(none.push(c).drop_last() =~= none);
    assert(seq![a].drop_last() =~= none);
    assert(seq![a].push(b).drop_last() =~= seq![a]);
    assert(seq![a].push(b).push(c).drop_last() =~= seq![a].push(b));
    assert(none.push(b).push(c).drop_last() =~= none.push(b));
    if s.len() == 0 {
        assert(s =~= Seq::empty());
    }
}

/// The bytes that the records say were injected.
pub open spec fn injected(rs: Seq<Record>) -> nat
    decreases rs.len(),
{
    if rs.len() == 0 {
        0
    } else {
        injected(rs.drop_last()) + (match rs.last() {
            Record::Inject { bytes, .. } => bytes as nat,
            _ => 0,
        })
    }
}

proof fn lemma_line_feed_byte()
    ensures
        byte_count("\n"@) == 1,
{
    reveal_strlit("\n");
    reveal_with_fuel(vstd::utf8::encode_utf8, 2);
    assert("\n"@ =~= seq!['\n']);
    assert(seq!['\n'].drop_first() =~= Seq::empty());
}

proof fn lemma_no_bytes()
    ensures
        byte_count(Seq::<char>::empty()) == 0,
{
    reveal_with_fuel(vstd::utf8::encode_utf8, 1);
}

/// The advice to compact is given where the last reply used more tokens than the threshold
/// and no advice stands in the log, and in no other case.
pub proof fn lemma_advice_given(
    cfg: Config,
    seen: Seen,
    session: Seq<char>,
    ts: u64,
    lim: Limits,
    transcript: Seq<char>,
    used: u64,
)
    requires
        seen.transcript == Some(transcript),
        last_usage(text::lines_of(transcript)) == Some(used),
    ensures
        holds(prompt_context(cfg, seen, lim), COMPACT_ADVICE@) <==> cfg.enabled && used
            > lim.compact_advice_threshold && !holds(seen.log, "compact_advice"@),
        prompt_records(cfg, seen, session, ts, lim).contains(
            Record::Inject {
                ts,
                session,
                source: "compact_advice"@,
                bytes: byte_count(COMPACT_ADVICE@) as usize,
            },
        ) <==> cfg.enabled && used > lim.compact_advice_threshold && !holds(
            seen.log,
            "compact_advice"@,
        ),
{
    lemma_advice_shown(cfg, seen, lim);
    let records = prompt_records(cfg, seen, session, ts, lim);
    let c = injection(ts, session, "compact_advice"@, size(COMPACT_ADVICE@));
    reveal_strlit("compact_advice");
    reveal_strlit("per_turn_reinforce");
    reveal_strlit("auto_ruleset");
    if advises(cfg, seen, lim) {
        assert(records[records.len() - 1] == c);
    } else {
        assert("compact_advice"@.len() != "per_turn_reinforce"@.len());
        assert("compact_advice"@.len() != "auto_ruleset"@.len());
        assert forall|i: int| 0 <= i < records.len() implies records[i] != c by {
        }
    }
}

/// The tokens of a reply are its three counts added up, and the largest number where they do
/// not fit.
pub proof fn lemma_usage_sum(u: Tree)
    ensures
        ({
            let a = json::number_or_zero(field(u, "input_tokens"@));
            let b = json::number_or_zero(field(u, "cache_read_input_tokens"@));
            let c = json::number_or_zero(field(u, "cache_creation_input_tokens"@));
            usage_sum(u) == (if a + b + c <= u64::MAX {
                a + b + c
            } else {
                u64::MAX as int
            })
        }),
{
}

/// A transcript line that is no record of the assistant leaves the last use as it was.
pub proof fn lemma_usage_skips(lines: Seq<Seq<char>>, line: Seq<char>, t: Tree)
    requires
        json::parsed(line) == Ok::<Tree, Seq<char>>(t),
        string(field(t, "type"@)) != Some("assistant"@),
    ensures
        last_usage(lines.push(line)) == last_usage(lines),
{
    assert(lines.push(line).drop_last() =~= lines);
}

/// A session begins with the ruleset of its level where compression is on and not in auto
/// mode, and with what the snapshot recalls where it comes back; what was given is recorded.
#[verifier::spinoff_prover]
#[verifier::rlimit(30)]
pub proof fn lemma_start_given(
    cfg: Config,
    source: Option<Seq<char>>,
    snap: Option<snapshot::Notes>,
    session: Seq<char>,
    ts: u64,
    lim: Limits,
)
    requires
        cfg.enabled,
    ensures
        cfg.output_compression == CompressionLevel::Lite ==> text::begins(
            start_context(cfg, source, snap, lim),
            LITE_RULESET@,
        ),
        cfg.output_compression == CompressionLevel::Full || cfg.output_compression
            == CompressionLevel::Ultra ==> text::begins(
            start_context(cfg, source, snap, lim),
            RULESET@,
        ),
        cfg.output_compression == CompressionLevel::Off || cfg.output_compression
            == CompressionLevel::Auto ==> !(source == Some("resume"@) || source == Some("compact"@))
            || snap is None ==> start_context(cfg, source, snap, lim).len() == 0,
        snap is Some && (source == Some("resume"@) || source == Some("compact"@)) ==> {
            let recalled = snapshot::assembled(snap->0, lim.inject_budget as nat, lim);
            let ctx = start_context(cfg, source, snap, lim);
            &&& recalled.len() <= ctx.len()
            &&& ctx.skip(ctx.len() - recalled.len()) == recalled
            &&& start_effects(cfg, source, snap, session, ts, lim).records.len() > 0
            &&& start_effects(cfg, source, snap, session, ts, lim).records.last() == (
            Record::Inject {
                ts,
                session,
                source: "resume_snapshot"@,
                bytes: byte_count(recalled) as usize,
            })
        },
        cfg.output_compression == CompressionLevel::Lite ==> start_effects(
            cfg,
            source,
            snap,
            session,
            ts,
            lim,
        ).records[0] == (Record::Inject {
            ts,
            session,
            source: "session_start_ruleset"@,
            bytes: byte_count(LITE_RULESET@) as usize,
        }),
        cfg.output_compression == CompressionLevel::Full || cfg.output_compression
            == CompressionLevel::Ultra ==> start_effects(
            cfg,
            source,
            snap,
            session,
            ts,
            lim,
        ).records[0] == (Record::Inject {
            ts,
            session,
            source: "session_start_ruleset"@,
            bytes: byte_count(RULESET@) as usize,
        }),
{
    let ctx = start_context(cfg, source, snap, lim);
    let rules = ruleset(cfg.output_compression);
    if cfg.output_compression != CompressionLevel::Off && cfg.output_compression
        != CompressionLevel::Auto {
        assert(ctx.subrange(0, rules.len() as int) =~= rules);
        assert(found_at(ctx, rules, 0));
    }
    if snap is Some && (source == Some("resume"@) || source == Some("compact"@)) {
        let recalled = snapshot::assembled(snap->0, lim.inject_budget as nat, lim);
        assert(ctx.skip(ctx.len() - recalled.len()) =~= recalled);
    }
}

/// A plain read goes on to the file it names; one with an offset or a limit only has the file
/// measured; what the session keeps itself is passed on.
pub proof fn lemma_reads(
    cfg: Config,
    tool_name: Option<Seq<char>>,
    tool_input: Tree,
    home: Seq<char>,
    session: Seq<char>,
    orig: Seq<char>,
)
    requires
        cfg.enabled,
        tool_name is None || tool_name == Some("Read"@),
        field(tool_input, "file_path"@) == Some(Tree::Text(orig)),
    ensures
        field(tool_input, "offset"@) is Some || field(tool_input, "limit"@) is Some ==> first_step(
            cfg,
            tool_name,
            tool_input,
            home,
            session,
        ) == Next::Measure(orig),
        field(tool_input, "offset"@) is None && field(tool_input, "limit"@) is None
            && !path::under(orig, ext_path(home, session)) ==> first_step(
            cfg,
            tool_name,
            tool_input,
            home,
            session,
        ) == Next::Load(orig),
        field(tool_input, "offset"@) is None && field(tool_input, "limit"@) is None && path::under(
            orig,
            ext_path(home, session),
        ) ==> first_step(cfg, tool_name, tool_input, home, session) == Next::Done(nothing()),
{
}

/// An externalized file is kept whole: one file written holds its content, verbatim, the
/// other names that file, and the read is sent to the other; the record says how large the
/// two are.
pub proof fn lemma_externalized_whole(
    home: Seq<char>,
    session: Seq<char>,
    tool_input: Tree,
    content: Seq<char>,
    ts: u64,
)
    requires
        tool_input is Object,
        byte_count(content) <= usize::MAX,
    ensures
        ({
            let c = externalize_change(home, session, tool_input, content, ts);
            &&& c.files.len() == 2
            &&& c.files[0].1 == content
            &&& holds(c.files[1].1, c.files[0].0)
            &&& c.effects.reply matches Reply::UpdatedInput(t)
            &&& field(t, "file_path"@) == Some(Tree::Text(c.files[1].0))
            &&& c.effects.records.len() == 1
            &&& c.effects.records[0] matches Record::Externalize {
                orig_bytes,
                new_bytes,
                session: under,
                ts: at,
                ..
            }
            &&& orig_bytes == byte_count(content)
            &&& (byte_count(c.files[1].1) <= usize::MAX ==> new_bytes == byte_count(c.files[1].1))
            &&& under == session
            &&& at == ts
        }),
{
    let c = externalize_change(home, session, tool_input, content, ts);
    let full = c.files[0].0;
    externalize::lemma_pointer_names_full(full, content);
    text::lemma_middle("full: "@, full, Seq::empty());
    assert("full: "@ + full + Seq::empty() =~= "full: "@ + full);
    text::lemma_has_within(c.files[1].1, "full: "@ + full, full);
    lemma_redirected(tool_input, c.files[1].0, "file_path"@);
}

/// The plan for a file depends on its size alone but for the aggregates in the middle: above
/// the larger threshold it is externalized, below the smaller one it gets a skeleton.
pub proof fn lemma_choice(
    home: Seq<char>,
    session: Seq<char>,
    cwd: Seq<char>,
    tu_id: Option<Seq<char>>,
    tool_input: Tree,
    orig: Seq<char>,
    content: Seq<char>,
    ts: u64,
    lim: Limits,
)
    requires
        byte_count(content) <= usize::MAX,
    ensures
        byte_count(content) > lim.externalize_threshold ==> choice_for(
            home,
            session,
            cwd,
            tu_id,
            tool_input,
            orig,
            content,
            ts,
            lim,
        ) == Chosen::Commit(externalize_change(home, session, tool_input, content, ts)),
        byte_count(content) <= lim.externalize_threshold && byte_count(content)
            <= lim.route_threshold ==> match choice_for(
            home,
            session,
            cwd,
            tu_id,
            tool_input,
            orig,
            content,
            ts,
            lim,
        ) {
            Chosen::Commit(c) => c.files.len() == 1 && byte_count(c.files[0].1) < byte_count(
                content,
            ) && Some(c.files[0].1) == skeleton::skeleton_of(content, shown_path(cwd, orig), lim),
            Chosen::Done(e) => e == nothing() && match skeleton::skeleton_of(
                content,
                shown_path(cwd, orig),
                lim,
            ) {
                Some(sk) => byte_count(content) == 0 || byte_count(sk) >= byte_count(content),
                None => true,
            },
            Chosen::Analyze(_) => false,
        },
{
}

/// What is logged of a compaction: the role first, then every decision and every skill in
/// their order, and the intent last.
pub proof fn lemma_compaction_logged(n: snapshot::Notes, i: int)
    ensures
        compaction_events(n).len() == n.decisions.len() + n.skills.len() + 2,
        text::begins(compaction_events(n)[0], "role: "@),
        n.role.len() <= 120 ==> compaction_events(n)[0] == "role: "@ + n.role,
        n.role.len() > 120 ==> compaction_events(n)[0] == "role: "@ + n.role.take(120),
        0 <= i < n.decisions.len() ==> compaction_events(n)[1 + i] == "decision: "@ + n.decisions[i],
        0 <= i < n.skills.len() ==> compaction_events(n)[1 + n.decisions.len() + i] == "skill: "@
            + n.skills[i],
        n.intent.len() <= 120 ==> compaction_events(n).last() == "intent: "@ + n.intent,
        n.intent.len() > 120 ==> compaction_events(n).last() == "intent: "@ + n.intent.take(120),
{
    let first = compaction_events(n)[0];
    assert(first.subrange(0, "role: "@.len() as int) =~= "role: "@);
    assert(found_at(first, "role: "@, 0));
}

/// A line of the log shows when, and what, with line ends as blanks.
pub proof fn lemma_event_shown(ts: u64, body: Seq<char>)
    ensures
        text::begins(event_line(ts, body), "["@ + stamp_of(ts) + "] "@),
        !body.contains('\n') && !body.contains('\r') ==> holds(event_line(ts, body), body),
        event_line(ts, body).len() == stamp_of(ts).len() + body.len() + 4,
{
    reveal_strlit("[");
    reveal_strlit("] ");
    reveal_strlit("\n");
    let line = event_line(ts, body);
    let head = "["@ + stamp_of(ts) + "] "@;
    assert(line.subrange(0, head.len() as int) =~= head);
    assert(found_at(line, head, 0));
    text::lemma_middle(head, flat(body), "\n"@);
    if !body.contains('\n') && !body.contains('\r') {
        assert forall|i: int| 0 <= i < body.len() implies flat(body)[i] == body[i] by {
            assert(body.contains(body[i]));
        }
        assert(flat(body) =~= body);
    }
}

/// Events are logged in order, each on its own.
pub proof fn lemma_logged_push(times: Seq<u64>, events: Seq<Seq<char>>, body: Seq<char>)
    ensures
        logged(times, events.push(body)) == logged(times, events) + event_line(
            times[events.len() as int],
            body,
        ),
{
    assert(events.push(body).drop_last() =~= events);
}

/// A retrieval is counted with the size of the file that was read.
pub proof fn lemma_escape_recorded(
    session: Seq<char>,
    orig: Seq<char>,
    bytes: usize,
    ts: u64,
)
    ensures
        escape_effects(session, orig, Some(bytes), ts).records.len() == 1,
        escape_effects(session, orig, Some(bytes), ts).records[0] matches Record::Retrieval {
            ts: at,
            session: under,
            size: counted,
            ..
        } && at == ts && under == session && counted == Some(bytes),
        escape_effects(session, orig, Some(bytes), ts).events.len() == 1,
        holds(
            escape_effects(session, orig, Some(bytes), ts).events[0],
            decimal_of(bytes as nat) + " bytes ("@ + orig + ")"@,
        ),
{
    lemma_tail_held(
        "retrieval: escaped via offset/limit, "@,
        decimal_of(bytes as nat),
        " bytes ("@,
        orig,
        ")"@,
    );
}

proof fn lemma_tail_held(
    head: Seq<char>,
    a: Seq<char>,
    b: Seq<char>,
    c: Seq<char>,
    d: Seq<char>,
)
    ensures
        holds(head + a + b + c + d, a + b + c + d),
{
    let two = a + b;
    let three = two + c;
    assert(head + two =~= head + a + b);
    assert(head + three =~= head + two + c);
    assert(head + (three + d) =~= head + three + d);
    lemma_end_held(head, three + d);
}

/// Scripts of the project come before those of the user, and in each place a shell script
/// before one in Python before one in JavaScript.
pub proof fn lemma_scripts_ordered(project: Seq<char>, ext: Seq<char>, global: Seq<char>)
    ensures
        scripts_for(project, ext, None).len() == 3,
        scripts_for(project, ext, Some(global)).len() == 6,
        scripts_for(project, ext, Some(global)).take(3) == scripts_for(project, ext, None),
        scripts_for(project, ext, Some(global)).skip(3) == scripts_in(global, ext),
        scripts_for(project, ext, None) == scripts_in(joined_path(project, ".tsk/sandbox"@), ext),
        scripts_in(global, ext)[0] == joined_path(global, "analyze_"@ + ext + ".sh"@),
        scripts_in(global, ext)[1] == joined_path(global, "analyze_"@ + ext + ".py"@),
        scripts_in(global, ext)[2] == joined_path(global, "analyze_"@ + ext + ".js"@),
{
    reveal_strlit(".");
    reveal_strlit("sh");
    reveal_strlit("py");
    reveal_strlit("js");
    reveal_strlit(".sh");
    reveal_strlit(".py");
    reveal_strlit(".js");
    let stem = "analyze_"@ + ext;
    assert(stem + "."@ + "sh"@ =~= stem + ".sh"@);
    assert(stem + "."@ + "py"@ =~= stem + ".py"@);
    assert(stem + "."@ + "js"@ =~= stem + ".js"@);
    assert(scripts_for(project, ext, None) =~= scripts_in(
        joined_path(project, ".tsk/sandbox"@),
        ext,
    ));
    assert(scripts_for(project, ext, Some(global)).take(3) =~= scripts_for(project, ext, None));
    assert(scripts_for(project, ext, Some(global)).skip(3) =~= scripts_in(global, ext));
}

/// A compaction writes a snapshot exactly where TSK is on and the transcript is known; what it
/// writes is the whole snapshot where that fits, and keeps to the size else, as far as there
/// is anything to leave out.
pub proof fn lemma_snapshot_written(
    cfg: Config,
    transcript_path: Option<Seq<char>>,
    home: Seq<char>,
    session: Seq<char>,
    transcript: Seq<char>,
    lim: Limits,
)
    ensures
        snapshot_written(cfg, transcript_path, home, session, transcript, lim) is Some
            <==> cfg.enabled && transcript_path is Some,
        snapshot_written(cfg, transcript_path, home, session, transcript, lim) matches Some((
            file,
            says,
        )) ==> {
            let n = snapshot::notes_of(transcript, session, lim);
            &&& file == joined_path(session_path(home, session), "resume-snapshot.json"@)
            &&& byte_count(snapshot::snapshot_text(n)) <= lim.snapshot_max ==> says
                == snapshot::snapshot_text(n)
            &&& byte_count(says) <= lim.snapshot_max || snapshot::droppable(
                snapshot::shrunk(n, lim),
            ) == 0
            &&& text::begins(
                says,
                "{\"v\":"@ + decimal_of(n.v as nat) + ",\"session\":"@ + json::quoted(n.session)
                    + ",\"role\":"@ + json::quoted(n.role) + ",\"decisions\":"@,
            )
        },
{
    let n = snapshot::notes_of(transcript, session, lim);
    snapshot::lemma_shrunk(n, lim);
    snapshot::lemma_text_shows(snapshot::shrunk(n, lim), 0);
}

/// The compactor is asked to keep the anchors, and the bytes of that are recorded.
pub proof fn lemma_compaction_asks(session: Seq<char>, transcript: Seq<char>, ts: u64, lim: Limits)
    ensures
        compaction_effects(session, transcript, ts, lim).reply == Reply::Context(
            Event::PreCompact,
            PROTECT_MARKERS@,
        ),
        byte_count(PROTECT_MARKERS@) <= usize::MAX ==> injected(
            compaction_effects(session, transcript, ts, lim).records,
        ) == byte_count(PROTECT_MARKERS@),
{
    reveal_with_fuel(injected, 2);
    let rs = compaction_effects(session, transcript, ts, lim).records;
    assert(rs.drop_last() =~= Seq::empty());
}

/// Where a file may be analysed, the analysis comes before the skeleton; what was not planned
/// is not tried.
pub proof fn lemma_fallbacks(a: Option<Change>, b: Option<Change>)
    ensures
        fallback_changes(a, b).len() == (if a is Some {
            1int
        } else {
            0int
        }) + (if b is Some {
            1int
        } else {
            0int
        }),
        a matches Some(x) ==> fallback_changes(a, b)[0] == x,
        b matches Some(y) ==> fallback_changes(a, b).last() == y,
{
}

/// A read that is rewritten goes to the file that was written for it, with everything else of
/// it as it was; the record says how large both are.
pub proof fn lemma_read_goes_to_skeleton(
    cwd: Seq<char>,
    session: Seq<char>,
    tu_id: Option<Seq<char>>,
    tool_input: Tree,
    orig: Seq<char>,
    content: Seq<char>,
    ts: u64,
    lim: Limits,
    key: Seq<char>,
)
    requires
        tool_input is Object,
        byte_count(content) <= usize::MAX,
    ensures
        skeleton_change(cwd, session, tu_id, tool_input, orig, content, ts, lim) matches Some(c) ==> {
            &&& c.effects.reply matches Reply::UpdatedInput(t)
            &&& field(t, "file_path"@) == Some(Tree::Text(c.files[0].0))
            &&& key != "file_path"@ ==> field(t, key) == field(tool_input, key)
            &&& c.files[0].0 == joined_path(
                storage::skeleton_path(cwd),
                storage::skeleton_name(orig),
            )
            &&& Some(c.files[0].1) == skeleton::skeleton_of(content, shown_path(cwd, orig), lim)
            &&& c.effects.records[0] matches Record::Rewrite {
                ts: at,
                session: under,
                orig_bytes,
                new_bytes,
                ..
            }
            &&& at == ts && under == session
            &&& orig_bytes == byte_count(content)
            &&& new_bytes == byte_count(c.files[0].1)
        },
{
    if let Some(c) = skeleton_change(cwd, session, tu_id, tool_input, orig, content, ts, lim) {
        lemma_redirected(tool_input, c.files[0].0, key);
    }
}

/// A read that is analysed goes to the file with what the script said, shown as the sandbox
/// shows it; the record says how large both are, and what the script said is kept whole where
/// not all of it is shown.
pub proof fn lemma_read_goes_to_summary(
    home: Seq<char>,
    session: Seq<char>,
    tool_input: Tree,
    ext: Seq<char>,
    bytes: usize,
    stdout: Seq<char>,
    ts: u64,
    lim: Limits,
    key: Seq<char>,
)
    requires
        tool_input is Object,
    ensures
        sandbox_change(home, session, tool_input, ext, bytes, stdout, ts, lim) matches Some(c) ==> {
            &&& c.effects.reply matches Reply::UpdatedInput(t)
            &&& field(t, "file_path"@) == Some(Tree::Text(c.files[0].0))
            &&& key != "file_path"@ ==> field(t, key) == field(tool_input, key)
            &&& byte_count(stdout) <= lim.sandbox_max_output ==> c.files[0].1 == stdout
            &&& c.effects.records[0] matches Record::Sandbox {
                ts: at,
                session: under,
                orig_bytes,
                new_bytes,
                ..
            }
            &&& at == ts && under == session
            &&& orig_bytes == bytes
            &&& new_bytes == byte_count(c.files[0].1)
            &&& byte_count(stdout) > lim.sandbox_max_output ==> (kept_output(
                home,
                session,
                stdout,
                lim,
            ) matches Some((file, whole)) && whole == stdout && holds(c.files[0].1, file))
        },
        sandbox_change(home, session, tool_input, ext, bytes, stdout, ts, lim) is None ==> (
        forall|i: int| 0 <= i < stdout.len() ==> text::white(#[trigger] stdout[i])) || byte_count(
            sandbox::shown(home, session, stdout, lim),
        ) >= bytes,
        byte_count(stdout) <= lim.sandbox_max_output ==> kept_output(home, session, stdout, lim)
            is None,
{
    let at = text::lemma_trimmed(stdout);
    if let Some(c) = sandbox_change(home, session, tool_input, ext, bytes, stdout, ts, lim) {
        lemma_redirected(tool_input, c.files[0].0, key);
        if byte_count(stdout) > lim.sandbox_max_output {
            let kept = sandbox::lemma_shown(home, session, stdout, lim);
            let note = sandbox::clip_note(home, session, stdout);
            text::lemma_has_concat(
                stdout.take(kept),
                note,
                sandbox::output_file(home, session, stdout),
            );
        }
    }
}

/// A file directly in the working directory is shown by its name, one that is not under it by
/// its whole path.
pub proof fn lemma_shown_path(cwd: Seq<char>, name: Seq<char>, orig: Seq<char>)
    requires
        cwd.len() > 0,
        cwd.last() != '/',
        path::components_of(cwd).len() > 0,
        name.len() > 0,
        name != "."@,
        !name.contains('/'),
    ensures
        shown_path(cwd, joined_path(cwd, name)) == name,
        !path::under(orig, cwd) ==> shown_path(cwd, orig) == orig,
{
    path::lemma_child_under(cwd, name);
    path::lemma_child(cwd, name);
}

/// A tool that was used is logged with its name and the name of its use.
pub proof fn lemma_observed(cfg: Config, tool: Seq<char>, id: Seq<char>)
    requires
        cfg.enabled,
    ensures
        observed(cfg, Some(tool), Some(id)).reply == Reply::Passthrough,
        observed(cfg, Some(tool), Some(id)).records.len() == 0,
        observed(cfg, Some(tool), Some(id)).events.len() == 1,
        holds(observed(cfg, Some(tool), Some(id)).events[0], "tool="@ + tool + " tu_id="@ + id),
{
    reveal_strlit("posttooluse: tool=");
    reveal_strlit("posttooluse: ");
    reveal_strlit("tool=");
    let head = "posttooluse: "@;
    let a = "tool="@;
    assert("posttooluse: tool="@ =~= head + a);
    let c = " tu_id="@;
    let e = head + a + tool + c + id;
    assert(observed(cfg, Some(tool), Some(id)).events[0] == e);
    lemma_tail_held(head, a, tool, c, id);
}

/// A call that names no file is passed on.
pub proof fn lemma_no_target(
    cfg: Config,
    tool_name: Option<Seq<char>>,
    tool_input: Tree,
    home: Seq<char>,
    session: Seq<char>,
)
    requires
        string(field(tool_input, "file_path"@)) is None,
    ensures
        first_step(cfg, tool_name, tool_input, home, session) == Next::Done(nothing()),
{
}

proof fn lemma_advice_is_no_turn(ts: u64)
    ensures
        occurrences(event_line(ts, advice_event()), "prompt_turn"@) == 0,
{
    let line = event_line(ts, advice_event());
    let pat = "prompt_turn"@;
    let stamp = stamp_of(ts);
    let body = advice_event();
    reveal_strlit("prompt_turn");
    reveal_strlit("compact_advice: context above 180k, /compact suggested");
    reveal_strlit("[");
    reveal_strlit("] ");
    reveal_strlit("\n");
    lemma_advice_event();
    assert(line == "["@ + stamp + "] "@ + body + "\n"@);
    let n = stamp.len() as int;
    text::lemma_occurrences_found(line, pat);
    if holds(line, pat) {
        let i = choose|i: int| found_at(line, pat, i);
        assert(line.subrange(i, i + pat.len())[0] == line[i]);
        assert(line.subrange(i, i + pat.len())[1] == line[i + 1]);
        assert(line[i] == 'p' && line[i + 1] == 'r');
        if 1 <= i < n + 1 {
            calendar::lemma_stamp_plain(ts, i - 1);
            assert(line[i] == stamp[i - 1]);
        } else if i >= n + 3 {
            assert(line[i] == body[i - n - 3]);
            lemma_no_pr(i - n - 3);
            assert(line[i + 1] == body[i - n - 2]);
        }
    }
}

proof fn lemma_no_pr(j: int)
    requires
        0 <= j < advice_event().len(),
        advice_event()[j] == 'p',
    ensures
        j + 1 < advice_event().len(),
        advice_event()[j + 1] != 'r',
{
    reveal_strlit("compact_advice: context above 180k, /compact suggested");
}

/// Every prompt is counted once where the turns are counted at all, in auto mode with
/// compression on, and no prompt is counted elsewhere.
#[verifier::spinoff_prover]
#[verifier::rlimit(30)]
pub proof fn lemma_prompt_counted(cfg: Config, seen: Seen, lim: Limits, times: Seq<u64>)
    ensures
        turns_in(seen.log + logged(times, prompt_events(cfg, seen, lim))) == turns_in(seen.log) + (
        if cfg.enabled && cfg.output_compression == CompressionLevel::Auto {
            1nat
        } else {
            0nat
        }),
{
    reveal_with_fuel(logged, 3);
    let none = Seq::<Seq<char>>::empty();
    let log = seen.log;
    let pat = "prompt_turn"@;
    reveal_strlit("prompt_turn");
    reveal_strlit("[");
    let turn = event_line(times[0], turn_event());
    let a0 = event_line(times[0], advice_event());
    let a1 = event_line(times[1], advice_event());
    lemma_turn_counted(log, times[0]);
    lemma_advice_is_no_turn(times[0]);
    lemma_advice_is_no_turn(times[1]);
    assert(!pat.contains('[')) by {
        if pat.contains('[') {
            let i = pat.index_of('[');
            assert(pat[i] == '[');
        }
    }
    assert(a0[0] == '[' && a1[0] == '[');
    text::lemma_occurrences_concat(log, a0, pat);
    text::lemma_occurrences_concat(log + turn, a1, pat);
    assert(seq![turn_event()].drop_last() =~= none);
    assert(none.push(advice_event()).drop_last() =~= none);
    assert(seq![turn_event()].push(advice_event()).drop_last() =~= seq![turn_event()]);
    let nil = Seq::<char>::empty();
    assert(log + nil =~= log);
    assert(nil + turn =~= turn);
    assert(nil + a0 =~= a0);
    assert(log + (turn + a1) =~= log + turn + a1);
}

/// The search for the last use goes back to the last record of the assistant and no further:
/// one without a use, or a line that is no record, ends it.
pub proof fn lemma_usage_stops(lines: Seq<Seq<char>>, line: Seq<char>, t: Tree)
    ensures
        json::parsed(line) is Err ==> last_usage(lines.push(line)) is None,
        json::parsed(line) == Ok::<Tree, Seq<char>>(t) && string(field(t, "type"@)) == Some(
            "assistant"@,
        ) && inner(t, "message"@, "usage"@) is None ==> last_usage(lines.push(line)) is None,
        last_usage(Seq::empty()) is None,
{
    assert(lines.push(line).last() == line);
}

/// The extension by which a file is routed is that of its name, and none where it has none.
pub proof fn lemma_shown_ext(dir: Seq<char>, stem: Seq<char>, ext: Seq<char>)
    requires
        dir.len() > 0,
        dir.last() != '/',
        stem.len() > 0,
        !stem.contains('/'),
        ext.len() > 0,
        !ext.contains('/'),
        !ext.contains('.'),
    ensures
        shown_ext(joined_path(dir, stem + seq!['.'] + ext)) == ext,
        !stem.contains('.') ==> shown_ext(joined_path(dir, stem)).len() == 0,
{
    path::lemma_extension(dir, stem, ext);
}

/// A file between the thresholds is analysed where it is an aggregate, by its extension, and
/// gets a skeleton where it is none.
pub proof fn lemma_middle_choice(
    home: Seq<char>,
    session: Seq<char>,
    cwd: Seq<char>,
    tu_id: Option<Seq<char>>,
    tool_input: Tree,
    orig: Seq<char>,
    content: Seq<char>,
    ts: u64,
    lim: Limits,
)
    requires
        lim.route_threshold < byte_count(content) <= lim.externalize_threshold,
        byte_count(content) <= usize::MAX,
    ensures
        ({
            let ext = shown_ext(orig);
            let chosen = choice_for(
                home,
                session,
                cwd,
                tu_id,
                tool_input,
                orig,
                content,
                ts,
                lim,
            );
            if ext == "log"@ || ext == "jsonl"@ || ext == "csv"@ || ext == "json"@ || ext
                == "tsv"@ {
                chosen == Chosen::Analyze(ext)
            } else {
                chosen == match skeleton_change(
                    cwd,
                    session,
                    tu_id,
                    tool_input,
                    orig,
                    content,
                    ts,
                    lim,
                ) {
                    Some(c) => Chosen::Commit(c),
                    None => Chosen::Done(nothing()),
                }
            }
        }),
{
}

} // verus!
