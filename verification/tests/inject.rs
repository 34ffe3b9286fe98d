use tsk_core::assets::{LITE_RULESET, PROTECT_MARKERS, REINFORCE, RULESET};
use tsk_core::calendar::{date, stamp};
use tsk_core::config::{CompressionLevel, Config, Limits, RULESET_MIN_CHARS};
use tsk_core::events::{Event, HookEvent, Output};
use tsk_core::inject::{
    already_advised, escaped, fallbacks, last_assistant_usage, loaded, log_event, posttooluse,
    precompact, pretooluse, prompt_turns, rewrite, ruleset_for, ruleset_injected, sandbox_scripts,
    session_start, snapshot_path, user_prompt, Choice, Reaction, Step,
};
use tsk_core::json::{parse, Json};
use tsk_core::ledger;
use tsk_core::ledger::Entry;
use tsk_core::snapshot::Snapshot;

fn lim() -> Limits {
    Limits::standard()
}

fn config(level: CompressionLevel) -> Config {
    Config { enabled: true, output_compression: level }
}

fn disabled() -> Config {
    Config { enabled: false, output_compression: CompressionLevel::Full }
}

fn event(session: &str) -> HookEvent {
    HookEvent {
        session_id: session.to_string(),
        cwd: "/p".to_string(),
        transcript_path: None,
        tool_name: None,
        tool_input: Json::Null,
        tool_use_id: None,
        source: None,
        prompt: None,
        trigger: None,
    }
}

fn read_event(session: &str, tool_input: &str) -> HookEvent {
    let mut ev = event(session);
    ev.tool_name = Some("Read".to_string());
    ev.tool_use_id = Some("tu-1".to_string());
    ev.tool_input = parse(tool_input).unwrap();
    ev
}

fn context(r: &Reaction) -> String {
    match &r.output {
        Output::Context(_, c) => c.clone(),
        _ => String::new(),
    }
}

fn est_tok(bytes: usize) -> usize {
    bytes.div_ceil(4)
}

/// A session's files, kept as the hooks would leave them.
struct Session {
    log: String,
    ledger: String,
    clock: u64,
}

impl Session {
    fn new() -> Self {
        Session { log: String::new(), ledger: String::new(), clock: 1_700_000_000_000 }
    }

    fn keep(&mut self, r: &Reaction) {
        self.ledger.push_str(&ledger::append(&r.entries));
        for e in &r.events {
            self.log.push_str(&log_event(self.clock / 1000, e));
        }
        self.clock += 1000;
    }

    fn prompt(&mut self, cfg: &Config, transcript: Option<&str>) -> Reaction {
        let r = user_prompt(cfg, &event("s"), &self.log, &self.ledger, transcript, self.clock, &lim());
        self.keep(&r);
        r
    }

    fn start(&mut self, cfg: &Config, source: &str, snap: Option<&Snapshot>) -> Reaction {
        let mut ev = event("s");
        ev.source = Some(source.to_string());
        let r = session_start(cfg, &ev, snap, self.clock, &lim());
        self.keep(&r);
        r
    }
}

#[test]
fn ruleset_meets_the_measured_length_floor() {
    assert!(
        RULESET.chars().count() >= RULESET_MIN_CHARS,
        "ruleset is {} chars, needs {}",
        RULESET.chars().count(),
        RULESET_MIN_CHARS
    );
}

#[test]
fn reinforcement_is_the_short_reemit() {
    assert!(REINFORCE.chars().count() <= 400);
    assert!(REINFORCE.contains("no pleasantries"));
}

#[test]
fn marker_protection_text_is_self_describing() {
    assert!(PROTECT_MARKERS.contains("[TSK SKELETON of"));
    assert!(PROTECT_MARKERS.contains("do not summarize or drop"));
}

#[test]
fn the_ruleset_has_its_parts() {
    for needle in [
        "TSK OUTPUT MODE ACTIVE",
        "HARD RULES",
        "VIOLATION CONTRACT",
        "POSITIVE example",
        "NEGATIVE example",
        "AUTO-CLARITY EXCEPTION",
        "STYLE SELF-CHECK",
    ] {
        assert!(RULESET.contains(needle), "{needle}");
    }
    assert_eq!(ruleset_for(CompressionLevel::Lite), LITE_RULESET);
    assert_eq!(ruleset_for(CompressionLevel::Ultra), RULESET);
    assert_eq!(ruleset_for(CompressionLevel::Auto), RULESET);
}

#[test]
fn output_compression_net_gain() {
    let cfg = config(CompressionLevel::Full);
    let mut s = Session::new();
    let ruleset_tok = est_tok(context(&s.start(&cfg, "startup", None)).len());
    let reinforce_tok = est_tok(context(&s.prompt(&cfg, None)).len());
    let out_saving_per_turn = 814usize - 254;
    assert!(
        ruleset_tok + reinforce_tok > out_saving_per_turn,
        "one turn must lose: short sessions do not pay back"
    );
    assert!(ruleset_tok + 10 * reinforce_tok < 10 * out_saving_per_turn, "ten turns must gain");
}

#[test]
fn output_compression_auto() {
    let cfg = config(CompressionLevel::Auto);
    let mut s = Session::new();
    assert_eq!(s.start(&cfg, "startup", None).output.to_string(), "{}", "auto: no ruleset at start");
    for i in 1..=2 {
        assert_eq!(s.prompt(&cfg, None).output.to_string(), "{}", "auto: nothing in turn {i}");
    }
    let ctx = context(&s.prompt(&cfg, None));
    assert!(ctx.contains("TSK OUTPUT MODE ACTIVE"), "third turn: ruleset");
    assert!(ctx.contains("Enforce this reply"), "third turn: reinforcement");
    let ctx = context(&s.prompt(&cfg, None));
    assert!(!ctx.contains("HARD RULES"), "ruleset only once");
    assert!(ctx.contains("Enforce this reply"), "fourth turn: reinforcement");
    let injects = s.ledger.matches("\"kind\":\"inject\"").count();
    assert_eq!(injects, 3, "four turns: one ruleset and two reinforcements");
}

#[test]
fn output_compression_lite() {
    let mut s = Session::new();
    let ctx = context(&s.start(&config(CompressionLevel::Lite), "startup", None));
    assert!(ctx.contains("(level: lite)"));
    assert!(ctx.contains("pleasantries"));
    assert!(ctx.contains("AUTO-CLARITY EXCEPTION"));
    let full = context(&s.start(&config(CompressionLevel::Full), "startup", None));
    assert!(ctx.len() < full.len(), "lite({}) must be shorter than full({})", ctx.len(), full.len());
}

#[test]
fn prompts_carry_the_reinforcement_from_the_first() {
    let mut s = Session::new();
    let r = s.prompt(&config(CompressionLevel::Full), None);
    assert_eq!(context(&r), REINFORCE);
    assert!(r.events.is_empty());
    match &r.entries[..] {
        [Entry::Inject(e)] => {
            assert_eq!(e.source, "per_turn_reinforce");
            assert_eq!(e.bytes, REINFORCE.len());
        }
        other => panic!("{other:?}"),
    }
}

const HEAVY: &str = r#"{"type":"assistant","message":{"content":[{"type":"text","text":"hi"}],"usage":{"input_tokens":200000,"cache_read_input_tokens":10000}}}
"#;

#[test]
fn compact_advice_is_given_once() {
    let cfg = config(CompressionLevel::Full);
    let mut s = Session::new();
    let first = context(&s.prompt(&cfg, Some(HEAVY)));
    assert_eq!(
        first,
        format!("{REINFORCE}\nContext is above 180k tokens; consider running /compact.")
    );
    assert!(!context(&s.prompt(&cfg, Some(HEAVY))).contains("/compact"));
    assert_eq!(s.log.matches("compact_advice").count(), 1);
    assert!(already_advised(&s.log));
    assert!(s.ledger.contains("\"source\":\"compact_advice\",\"bytes\":56}"));
}

#[test]
fn advice_needs_no_style_but_needs_tsk() {
    let mut s = Session::new();
    let ctx = context(&s.prompt(&config(CompressionLevel::Off), Some(HEAVY)));
    assert_eq!(ctx, "Context is above 180k tokens; consider running /compact.");
    let mut s = Session::new();
    let r = s.prompt(&disabled(), Some(HEAVY));
    assert_eq!(r, Reaction::passthrough());
}

#[test]
fn usage_is_that_of_the_last_assistant_turn() {
    let t = concat_lines(&[
        r#"{"type":"assistant","message":{"usage":{"input_tokens":1}}}"#,
        r#"{"type":"assistant","message":{"usage":{"input_tokens":5,"cache_read_input_tokens":7,"cache_creation_input_tokens":11}}}"#,
        r#"{"type":"user","message":{"content":"x"}}"#,
    ]);
    assert_eq!(last_assistant_usage(&t), Some(23));
    assert_eq!(last_assistant_usage(&format!("{t}not json\n")), None);
    assert_eq!(last_assistant_usage(""), None);
    assert_eq!(last_assistant_usage(r#"{"type":"assistant","message":{}}"#), None);
    let big = r#"{"type":"assistant","message":{"usage":{"input_tokens":18446744073709551615,"cache_read_input_tokens":1}}}"#;
    assert_eq!(last_assistant_usage(big), Some(u64::MAX));
    let odd = r#"{"type":"assistant","message":{"usage":{"input_tokens":-3,"cache_read_input_tokens":"7"}}}"#;
    assert_eq!(last_assistant_usage(odd), Some(0));
}

fn concat_lines(lines: &[&str]) -> String {
    lines.iter().map(|l| format!("{l}\n")).collect()
}

#[test]
fn the_threshold_is_exclusive() {
    let at = |n: u64| {
        let t = format!(r#"{{"type":"assistant","message":{{"usage":{{"input_tokens":{n}}}}}}}"#);
        context(&Session::new().prompt(&config(CompressionLevel::Off), Some(&t)))
    };
    assert_eq!(at(180_000), "");
    assert!(at(180_001).contains("/compact"));
}

#[test]
fn logs_and_ledgers_are_read_back() {
    let mut log = String::new();
    for ts in [1, 22, 333] {
        log.push_str(&log_event(ts, "prompt_turn: user message submitted"));
    }
    assert_eq!(log.lines().next().unwrap(), "[1970-01-01T00:00:01Z] prompt_turn: user message submitted");
    assert_eq!(prompt_turns(&log), 3);
    assert_eq!(prompt_turns(""), 0);
    assert!(ruleset_injected("x session_start_ruleset y"));
    assert!(!ruleset_injected("per_turn_reinforce"));
}

fn snap() -> Snapshot {
    Snapshot {
        v: 1,
        session: "s".to_string(),
        role: "Fix the login form".to_string(),
        decisions: vec!["Decision: use Rust".to_string()],
        skills: vec!["Read".to_string(), "rust".to_string()],
        intent: "run the tests".to_string(),
    }
}

const RESUMED: &str =
    "ROLE: Fix the login form\nDECISIONS: Decision: use Rust\nSKILLS: Read | rust\nINTENT: run the tests";

#[test]
fn a_session_that_comes_back_is_resumed() {
    let s = snap();
    for source in ["resume", "compact"] {
        let r = Session::new().start(&config(CompressionLevel::Off), source, Some(&s));
        assert_eq!(context(&r), format!("\n\nRESUME:\n{RESUMED}"));
        match &r.entries[..] {
            [Entry::Inject(e)] => {
                assert_eq!((e.source.as_str(), e.bytes), ("resume_snapshot", RESUMED.len()));
            }
            other => panic!("{other:?}"),
        }
    }
    for source in ["startup", "clear"] {
        let r = Session::new().start(&config(CompressionLevel::Off), source, Some(&s));
        assert_eq!(r, Reaction::passthrough());
    }
    let r = Session::new().start(&config(CompressionLevel::Off), "resume", None);
    assert_eq!(r, Reaction::passthrough());
    let r = Session::new().start(&disabled(), "resume", Some(&s));
    assert_eq!(r, Reaction::passthrough());
}

#[test]
fn ruleset_and_resumption_go_together() {
    let s = snap();
    let r = Session::new().start(&config(CompressionLevel::Full), "resume", Some(&s));
    assert_eq!(context(&r), format!("{RULESET}\n\n\nRESUME:\n{RESUMED}"));
    assert_eq!(r.entries.len(), 2);
    let r = Session::new().start(&config(CompressionLevel::Auto), "resume", Some(&s));
    assert_eq!(context(&r), format!("\n\nRESUME:\n{RESUMED}"));
}

#[test]
fn compaction_leaves_a_snapshot_and_protects_the_anchors() {
    let mut ev = event("s");
    ev.transcript_path = Some("/t.jsonl".to_string());
    let t = concat_lines(&[
        r#"{"type":"user","message":{"content":"Refactor the parser module, please"}}"#,
        r#"{"type":"assistant","message":{"content":[{"type":"text","text":"Decision: keep the lexer"}]}}"#,
    ]);
    let c = precompact(&config(CompressionLevel::Off), &ev, "/h", &t, 5, &lim());
    assert_eq!(c.reaction.output, Output::Context(Event::PreCompact, PROTECT_MARKERS.to_string()));
    assert_eq!(
        c.reaction.events,
        vec![
            "role: Refactor the parser module, please",
            "decision: Decision: keep the lexer",
            "intent: Refactor the parser module, please",
        ]
    );
    let f = c.snapshot.unwrap();
    assert_eq!(f.path, "/h/s/resume-snapshot.json");
    assert_eq!(f.path, snapshot_path("/h", "s"));
    assert_eq!(
        f.text,
        r#"{"v":1,"session":"s","role":"Refactor the parser module, please","decisions":["Decision: keep the lexer"],"skills":[],"intent":"Refactor the parser module, please"}"#
    );
    let c = precompact(&disabled(), &ev, "/h", &t, 5, &lim());
    assert_eq!(c.reaction, Reaction::passthrough());
    assert!(c.snapshot.is_none());
    let c = precompact(&config(CompressionLevel::Off), &event("s"), "/h", &t, 5, &lim());
    assert_eq!(c.reaction, Reaction::passthrough());
}

#[test]
fn tool_results_are_only_observed() {
    let mut ev = event("s");
    ev.tool_name = Some("Read".to_string());
    let r = posttooluse(&config(CompressionLevel::Full), &ev);
    assert_eq!(r.output, Output::Passthrough);
    assert!(r.entries.is_empty());
    assert_eq!(r.events, vec!["posttooluse: tool=Read tu_id=?"]);
    assert_eq!(posttooluse(&disabled(), &ev), Reaction::passthrough());
}

#[test]
fn the_first_step_of_a_read() {
    let cfg = config(CompressionLevel::Off);
    let step = |cfg: &Config, input: &str| pretooluse(cfg, &read_event("s", input), "/h");
    assert_eq!(step(&cfg, r#"{"file_path":"/p/a.txt"}"#), Step::Load("/p/a.txt".to_string()));
    assert_eq!(
        step(&cfg, r#"{"file_path":"/p/a.txt","offset":1}"#),
        Step::Measure("/p/a.txt".to_string())
    );
    let done = Step::Done(Reaction::passthrough());
    assert_eq!(step(&cfg, r#"{"file_path":7}"#), done);
    assert_eq!(step(&cfg, "null"), done);
    assert_eq!(step(&disabled(), r#"{"file_path":"/p/a.txt"}"#), done);
    assert_eq!(step(&disabled(), r#"{"file_path":"/p/a.txt","limit":1}"#), done);
    // What TSK externalized itself is read as it is.
    assert_eq!(step(&cfg, r#"{"file_path":"/h/s/ext/abc.txt"}"#), done);
    assert_eq!(step(&cfg, r#"{"file_path":"/h/./s//ext/abc.txt"}"#), done);
    assert_eq!(
        step(&cfg, r#"{"file_path":"/h/s/extra.txt"}"#),
        Step::Load("/h/s/extra.txt".to_string())
    );
}

#[test]
fn retrievals_pass_and_are_recorded() {
    let ev = read_event("s1", r#"{"file_path":"/p/a.txt","offset":50,"limit":10}"#);
    let r = escaped(&ev, "/p/a.txt", Some(1292), 9);
    assert_eq!(r.output.to_string(), "{}");
    assert_eq!(
        ledger::append(&r.entries),
        "{\"kind\":\"retrieval\",\"ts\":9,\"session\":\"s1\",\"tool\":\"Read\",\"reason\":\"escape_hatch_offset_limit\",\"orig_bytes\":1292}\n"
    );
    assert_eq!(r.events, vec!["retrieval: escaped via offset/limit, 1292 bytes (/p/a.txt)"]);
    let r = escaped(&ev, "/p/a.txt", None, 9);
    assert!(!ledger::append(&r.entries).contains("orig_bytes"));
    assert_eq!(r.events, vec!["retrieval: escaped via offset/limit, 0 bytes (/p/a.txt)"]);
}

fn rows(n: usize) -> String {
    (1..=n).map(|i| format!("line {i}\n")).collect()
}

#[test]
fn a_skeleton_replaces_a_file_of_many_lines() {
    let ev = read_event("s1", r#"{"file_path":"/p/s1.txt","note":[1.5,{"k":null}]}"#);
    let content = rows(200);
    let c = match loaded(&ev, "/h", "/p/s1.txt", &content, 3, &lim()) {
        Choice::Commit(c) => c,
        other => panic!("{other:?}"),
    };
    assert_eq!(c.files.len(), 1);
    let sk = &c.files[0];
    assert!(sk.text.starts_with("[TSK SKELETON of s1.txt | 200 lines total"));
    assert!(sk.path.starts_with("/p/.tsk/skeletons/"));
    assert!(sk.path.ends_with("-s1.txt.skeleton.txt"));
    let bytes = (content.len(), sk.text.len());
    match &c.reaction.entries[..] {
        [Entry::Rewrite(e)] => {
            assert_eq!((e.orig_bytes, e.new_bytes), bytes);
            assert_eq!(e.saved, bytes.0 - bytes.1);
            assert_eq!((e.tu_id.as_str(), e.strategy.as_str()), ("tu-1", "skeleton"));
        }
        other => panic!("{other:?}"),
    }
    let expected = format!(
        r#"{{"hookSpecificOutput":{{"hookEventName":"PreToolUse","updatedInput":{{"file_path":"{}","note":[1.5,{{"k":null}}]}}}}}}"#,
        sk.path
    );
    assert_eq!(c.reaction.output.to_string(), expected);
    assert_eq!(c.settle(false), Reaction::passthrough());
}

#[test]
fn small_and_empty_files_pass() {
    let ev = read_event("s", r#"{"file_path":"/p/a.txt"}"#);
    let done = Choice::Done(Reaction::passthrough());
    assert_eq!(loaded(&ev, "/h", "/p/a.txt", "", 1, &lim()), done);
    assert_eq!(loaded(&ev, "/h", "/p/a.txt", &rows(8), 1, &lim()), done);
    // Nine short lines have a skeleton, but it is larger than they are.
    assert_eq!(loaded(&ev, "/h", "/p/a.txt", &rows(9), 1, &lim()), done);
}

#[test]
fn large_files_are_externalized_whatever_their_lines() {
    let ev = read_event("s3", r#"{"file_path":"/p/big.json"}"#);
    let content = "x".repeat(100 * 1024 + 1);
    let c = match loaded(&ev, "/h", "/p/big.json", &content, 2, &lim()) {
        Choice::Commit(c) => c,
        other => panic!("{other:?}"),
    };
    assert_eq!(c.files.len(), 2);
    assert_eq!(c.files[0].text, content);
    assert!(c.files[1].text.contains(&c.files[0].path));
    match &c.reaction.entries[..] {
        [Entry::Externalize(e)] => {
            assert_eq!(e.orig_bytes, content.len());
            assert_eq!(e.new_bytes, c.files[1].text.len());
        }
        other => panic!("{other:?}"),
    }
    assert_eq!(
        c.reaction.events,
        vec![format!(
            "externalize: {} -> {} bytes, pointer {}",
            content.len(),
            c.files[1].text.len(),
            c.files[1].path
        )]
    );
    // Reading the whole text back passes.
    let back = read_event("s3", &format!(r#"{{"file_path":"{}"}}"#, c.files[0].path));
    let step = pretooluse(&config(CompressionLevel::Off), &back, "/h");
    assert_eq!(step, Step::Done(Reaction::passthrough()));
}

#[test]
fn a_large_aggregate_without_lines_may_still_be_analyzed() {
    let ev = read_event("s", r#"{"file_path":"/p/one.log"}"#);
    let content = "y".repeat(60 * 1024);
    assert_eq!(loaded(&ev, "/h", "/p/one.log", &content, 1, &lim()), Choice::Analyze("log".to_string()));
    // Without conclusions there is no skeleton either, so the file itself is read.
    assert!(fallbacks(&ev, "/h", "/p/one.log", &content, None, 1, &lim()).commits.is_empty());
    assert_eq!(
        loaded(&ev, "/h", "/p/one.txt", &content, 1, &lim()),
        Choice::Done(Reaction::passthrough())
    );
}

#[test]
fn conclusions_come_before_the_skeleton() {
    let ev = read_event("s", r#"{"file_path":"/p/a.log"}"#);
    let content = rows(200);
    let plans = fallbacks(&ev, "/h", "/p/a.log", &content, Some("200 lines\n"), 1, &lim());
    assert!(plans.keep.is_none());
    assert_eq!(plans.commits.len(), 2);
    let first = &plans.commits[0];
    assert_eq!(first.files[0].text, "200 lines\n");
    assert!(first.files[0].path.starts_with("/h/s/ext/"));
    assert!(first.files[0].path.ends_with(".summary.txt"));
    match &first.reaction.entries[..] {
        [Entry::Sandbox(e)] => {
            assert_eq!((e.orig_bytes, e.new_bytes), (content.len(), 10));
            assert_eq!(e.saved, content.len() - 10);
            assert_eq!(e.tool, "Read");
        }
        other => panic!("{other:?}"),
    }
    assert_eq!(
        first.reaction.events,
        vec![format!("sandbox: analyze_log -> {} -> 10 bytes", content.len())]
    );
    // Blank conclusions and conclusions as long as the file do not help.
    assert_eq!(fallbacks(&ev, "/h", "/p/a.log", &content, Some(" \n"), 1, &lim()).commits.len(), 1);
    assert_eq!(fallbacks(&ev, "/h", "/p/a.log", &content, Some(&content), 1, &lim()).commits.len(), 1);
}

#[test]
fn oversized_conclusions_are_kept_whole_beside_the_summary() {
    let ev = read_event("s", r#"{"file_path":"/p/a.log"}"#);
    let content = rows(9000);
    let stdout: String = (1..=8500).map(|i| format!("row {i}\n")).collect();
    assert!(stdout.len() > 64 * 1024 && content.len() < 100 * 1024);
    let plans = fallbacks(&ev, "/h", "/p/a.log", &content, Some(&stdout), 1, &lim());
    let keep = plans.keep.as_ref().unwrap();
    assert_eq!(keep.text, stdout);
    assert!(plans.commits[0].files[0].text.contains(&keep.path));
    // The whole output is kept even where its beginning is no shorter than the file.
    let small = rows(200);
    let wide = "w".repeat(70_000);
    let plans = fallbacks(&ev, "/h", "/p/a.log", &small, Some(&wide), 1, &lim());
    assert_eq!(plans.keep.unwrap().text, wide);
    assert_eq!(plans.commits.len(), 1);
    assert!(plans.commits[0].files[0].path.ends_with(".skeleton.txt"));
}

#[test]
fn scripts_are_tried_in_order() {
    assert_eq!(
        sandbox_scripts("/p", "log", None),
        vec![
            "/p/.tsk/sandbox/analyze_log.sh",
            "/p/.tsk/sandbox/analyze_log.py",
            "/p/.tsk/sandbox/analyze_log.js",
        ]
    );
    let both = sandbox_scripts("/p", "csv", Some("/g/"));
    assert_eq!(both.len(), 6);
    assert_eq!(both[3], "/g/analyze_csv.sh");
    assert_eq!(both[5], "/g/analyze_csv.js");
}

#[test]
fn only_the_path_is_rewritten() {
    let input = parse(r#"{"b":true,"file_path":"old","a":18446744073709551615}"#).unwrap();
    assert_eq!(
        rewrite(&input, "new \"x\"").to_string(),
        r#"{"hookSpecificOutput":{"hookEventName":"PreToolUse","updatedInput":{"a":18446744073709551615,"b":true,"file_path":"new \"x\""}}}"#
    );
    let odd = parse("[1]").unwrap();
    assert_eq!(
        rewrite(&odd, "new").to_string(),
        r#"{"hookSpecificOutput":{"hookEventName":"PreToolUse","updatedInput":[1]}}"#
    );
}

#[test]
fn conclusions_are_read_as_they_are() {
    let ev = read_event("s", r#"{"file_path":"/p/a.log"}"#);
    let stdout: String = (1..=8500).map(|i| format!("row {i}\n")).collect();
    let plans = fallbacks(&ev, "/h", "/p/a.log", &rows(9000), Some(&stdout), 1, &lim());
    let done = Step::Done(Reaction::passthrough());
    let summary = &plans.commits[0].files[0].path;
    let whole = &plans.keep.as_ref().unwrap().path;
    for path in [summary, whole] {
        let back = read_event("s", &format!(r#"{{"file_path":"{path}"}}"#));
        assert_eq!(pretooluse(&config(CompressionLevel::Off), &back, "/h"), done);
    }
}

#[test]
fn a_ruleset_from_the_start_is_not_repeated() {
    let mut s = Session::new();
    s.start(&config(CompressionLevel::Full), "startup", None);
    for _ in 0..4 {
        let ctx = context(&s.prompt(&config(CompressionLevel::Auto), None));
        assert!(!ctx.contains("HARD RULES"));
    }
}

#[test]
fn ledger_lines_are_json_documents() {
    let mut s = Session::new();
    s.start(&config(CompressionLevel::Full), "startup", None);
    s.prompt(&config(CompressionLevel::Full), Some(HEAVY));
    let sources: Vec<String> = s
        .ledger
        .lines()
        .map(|l| match parse(l).unwrap() {
            Json::Object(members) => members
                .into_iter()
                .find_map(|(k, v)| match v {
                    Json::Text(t) if k == "source" => Some(t),
                    _ => None,
                })
                .unwrap(),
            other => panic!("{other:?}"),
        })
        .collect();
    assert_eq!(sources, vec!["session_start_ruleset", "per_turn_reinforce", "compact_advice"]);
}

#[test]
fn only_a_read_is_rewritten() {
    let cfg = config(CompressionLevel::Off);
    let done = Step::Done(Reaction::passthrough());
    for tool in ["Edit", "Bash", "read", ""] {
        for input in [r#"{"file_path":"/p/a.txt"}"#, r#"{"file_path":"/p/a.txt","offset":1}"#] {
            let mut ev = read_event("s", input);
            ev.tool_name = Some(tool.to_string());
            assert_eq!(pretooluse(&cfg, &ev, "/h"), done, "{tool}");
        }
    }
    let mut ev = read_event("s", r#"{"file_path":"/p/a.txt"}"#);
    ev.tool_name = None;
    assert_eq!(pretooluse(&cfg, &ev, "/h"), Step::Load("/p/a.txt".to_string()));
}

#[test]
fn scripts_are_for_aggregates_of_middling_size() {
    let ev = read_event("s", r#"{"file_path":"/p/a.log"}"#);
    let of = |kb: usize| "a log line of some length\n".repeat(kb * 1024 / 26 + 1);
    let analyze = Choice::Analyze("log".to_string());
    assert_eq!(loaded(&ev, "/h", "/p/a.log", &of(60), 1, &lim()), analyze);
    assert_ne!(loaded(&ev, "/h", "/p/a.log", &of(20), 1, &lim()), analyze);
    assert!(matches!(loaded(&ev, "/h", "/p/a.rs", &of(60), 1, &lim()), Choice::Commit(_)));
    assert!(matches!(loaded(&ev, "/h", "/p/a.log", &of(110), 1, &lim()), Choice::Commit(_)));
    let mut l = lim();
    l.route_threshold = 1024;
    assert_eq!(loaded(&ev, "/h", "/p/a.log", &of(20), 1, &l), analyze);
}

#[test]
fn every_event_is_one_line() {
    assert_eq!(log_event(7, "role: a\nb\r\nc"), "[1970-01-01T00:00:07Z] role: a b  c\n");
    assert_eq!(
        log_event(1789473707, "decision: use Rust core engine, not Go, for performance"),
        "[2026-09-15T12:01:47Z] decision: use Rust core engine, not Go, for performance\n"
    );
    let mut ev = event("s");
    ev.transcript_path = Some("/t.jsonl".to_string());
    let t = r#"{"type":"user","message":{"content":"Refactor the parser\nand then the lexer"}}
{"type":"assistant","message":{"content":[{"type":"text","text":"Decision: one\nDecision: two"},{"type":"tool_use","name":"Read","input":{"file_path":"a.rs"}}]}}
"#;
    let c = precompact(&config(CompressionLevel::Off), &ev, "/h", t, 5, &lim());
    let log: String = c.reaction.events.iter().map(|e| log_event(1, e)).collect();
    assert_eq!(
        log,
        [
            "role: Refactor the parser and then the lexer",
            "decision: Decision: two",
            "decision: Decision: one",
            "skill: Read",
            "skill: rust",
            "intent: Refactor the parser and then the lexer",
        ]
        .iter()
        .map(|e| format!("[1970-01-01T00:00:01Z] {e}\n"))
        .collect::<String>()
    );
}

#[test]
fn limits_hold_for_advice_and_resumption() {
    let mut l = lim();
    l.compact_advice_threshold = 10;
    l.inject_budget = 8;
    let t = r#"{"type":"assistant","message":{"usage":{"input_tokens":11}}}"#;
    let cfg = config(CompressionLevel::Off);
    let r = user_prompt(&cfg, &event("s"), "", "", Some(t), 1, &l);
    assert!(context(&r).contains("/compact"));
    let mut ev = event("s");
    ev.source = Some("resume".to_string());
    let r = session_start(&cfg, &ev, Some(&snap()), 1, &l);
    assert!(context(&r).ends_with("SKILLS: rust\nINTENT: "));
}

#[test]
fn events_of_a_windows_host_are_portable() {
    let mut ev = read_event("s", r#"{"file_path":"D:\\project\\bigfile.txt","x":1}"#);
    ev.cwd = "D:\\project".to_string();
    let ev = ev.portable(true);
    assert_eq!(ev.cwd, "D:/project");
    assert_eq!(ev.tool_input.render(), r#"{"file_path":"D:/project/bigfile.txt","x":1}"#);
    let c = match loaded(&ev, "C:/h", "D:/project/bigfile.txt", &rows(200), 1, &lim()) {
        Choice::Commit(c) => c,
        other => panic!("{other:?}"),
    };
    assert!(c.files[0].path.starts_with("D:/project/.tsk/skeletons/"));
    assert!(c.files[0].path.ends_with("-bigfile.txt.skeleton.txt"));
    assert!(c.files[0].text.starts_with("[TSK SKELETON of bigfile.txt | 200 lines"));
    let other = read_event("s", r#"{"file_path":"a\\b"}"#).portable(false);
    assert_eq!(other.tool_input.render(), r#"{"file_path":"a\\b"}"#);
}

#[test]
fn time_stamps_follow_the_calendar() {
    for (secs, want) in [
        (0, "1970-01-01T00:00:00Z"),
        (951782400, "2000-02-29T00:00:00Z"),
        (1709164799, "2024-02-28T23:59:59Z"),
        (1767225599, "2025-12-31T23:59:59Z"),
        (4107542399, "2100-02-28T23:59:59Z"),
        (4107542400, "2100-03-01T00:00:00Z"),
        (253402300799, "9999-12-31T23:59:59Z"),
        (u64::MAX, "584554051223-11-09T07:00:15Z"),
    ] {
        assert_eq!(stamp(secs), want);
    }
    // A day after another is the next one in its month, or the first of the next.
    let mut before = date(0);
    assert_eq!(before, (1970, 1, 1));
    for n in 1..200_000u64 {
        let (y, m, d) = date(n);
        let next = (y, m, d) == (before.0, before.1, before.2 + 1)
            || (y, m, d) == (before.0, before.1 + 1, 1)
            || (y, m, d) == (before.0 + 1, 1, 1) && (before.1, before.2) == (12, 31);
        assert!(next, "{n}");
        before = (y, m, d);
    }
}

#[test]
fn the_advice_is_shown_exactly_when_it_is_due() {
    let advice = "Context is above 180k tokens; consider running /compact.";
    assert!(!format!("{RULESET}{REINFORCE}").contains(advice));
    for level in [CompressionLevel::Off, CompressionLevel::Lite, CompressionLevel::Full] {
        for (a, b) in [(100_000, 80_000), (100_000, 80_001), (0, 180_001), (180_001, 0)] {
            let t = format!(
                "{{\"type\":\"assistant\",\"message\":{{\"usage\":{{\"input_tokens\":{a},\"cache_read_input_tokens\":{b}}}}}}}\n{{\"type\":\"user\"}}\n"
            );
            let mut s = Session::new();
            let due = a + b > 180_000;
            let r = s.prompt(&config(level), Some(&t));
            assert_eq!(context(&r).contains(advice), due);
            assert_eq!(r.events.iter().filter(|e| e.contains("compact_advice")).count(), due as usize);
            let again = s.prompt(&config(CompressionLevel::Auto), Some(&t));
            assert!(!context(&again).contains(advice) || !due);
        }
    }
    // In `auto` mode the advice may come with the ruleset itself.
    let mut s = Session::new();
    s.prompt(&config(CompressionLevel::Auto), None);
    s.prompt(&config(CompressionLevel::Auto), None);
    let r = s.prompt(&config(CompressionLevel::Auto), Some(HEAVY));
    assert!(context(&r).contains("HARD RULES") && context(&r).ends_with(advice));
    assert!(!context(&s.prompt(&config(CompressionLevel::Auto), Some(HEAVY))).contains(advice));
}

#[test]
fn a_pointer_is_smaller_than_its_file() {
    let ev = read_event("s", r#"{"file_path":"/p/big.txt"}"#);
    let content = "x".repeat(100 * 1024 + 1);
    for home in ["/h".to_string(), format!("/{}", "h".repeat(50_000))] {
        match loaded(&ev, &home, "/p/big.txt", &content, 1, &lim()) {
            Choice::Commit(c) => assert!(c.files[1].text.len() < content.len()),
            other => panic!("{other:?}"),
        }
    }
}
