use tsk_core::ledger::{
    self, Entry, ExternalizeEntry, InjectEntry, RetrievalEntry, RewriteEntry, SandboxEntry,
};
use tsk_core::number::{align_left, align_right, decimal, est_tok, fmt_int, hex, signed};
use tsk_core::report::{
    add_up, cache_use, cleared, cost_of, no_usage, orig_of, report, report_all, saved_of,
    session_report, summarize, tool_of, totals_fit, Scope,
};

fn rewrite(tool: &str, orig_bytes: usize, new_bytes: usize) -> Entry {
    Entry::Rewrite(RewriteEntry {
        ts: 1,
        session: "sess-r".to_string(),
        tool: tool.to_string(),
        tu_id: "t1".to_string(),
        strategy: "skeleton".to_string(),
        orig_bytes,
        new_bytes,
        saved: orig_bytes - new_bytes,
    })
}

fn retrieval() -> Entry {
    Entry::Retrieval(RetrievalEntry {
        ts: 2,
        session: "sess-r".to_string(),
        tool: "Read".to_string(),
        reason: "escape_hatch_offset_limit".to_string(),
        orig_bytes: None,
    })
}

fn externalize(orig_bytes: usize, new_bytes: usize) -> Entry {
    Entry::Externalize(ExternalizeEntry {
        ts: 3,
        session: "sess-r".to_string(),
        tool: "Read".to_string(),
        orig_bytes,
        new_bytes,
    })
}

fn inject(bytes: usize) -> Entry {
    Entry::Inject(InjectEntry {
        ts: 4,
        session: "sess-r".to_string(),
        source: "session_start_ruleset".to_string(),
        bytes,
    })
}

fn sandbox(tool: &str, saved: usize) -> Entry {
    Entry::Sandbox(SandboxEntry {
        ts: 5,
        session: "sess-r".to_string(),
        tool: tool.to_string(),
        orig_bytes: saved + 1,
        new_bytes: 1,
        saved,
    })
}

#[test]
fn a_session_is_summarized() {
    let entries = vec![
        rewrite("Read", 1000, 100),
        retrieval(),
        externalize(200_000, 1_200),
        inject(300),
        sandbox("Bash", 300),
    ];
    assert!(totals_fit(&entries));
    assert_eq!(
        summarize(&entries),
        "saved       : 200,000 bytes ≈ 50000 est tokens\n\
         inject cost : 300 bytes ≈ 75 est tokens\n\
         net         : 199,700 bytes\n\
         retrievals  : 1\n\
         压缩原文合计: 201,000 bytes ≈ 50250 est tokens\n\
         （悲观上限：若全部回读原文全文, 额外输入 ≈ 50250 est tok; 净省 ≈ -325 est tok）\n\
         —— 骨架/外置的节省以“不回读全文”为前提; 回读即付该额外输入\n\
         \x20 Bash: 300 bytes (0%)\n\
         \x20 Read: 199,700 bytes (99%)\n"
    );
}

#[test]
fn an_empty_session_saves_nothing() {
    let s = summarize(&vec![]);
    assert!(s.starts_with("saved       : 0 bytes ≈ 0 est tokens\n"));
    assert!(s.contains("净省 ≈ 0 est tok"));
    assert!(s.ends_with("该额外输入\n"));
    // A cost above the savings leaves a net of nothing, but a negative pessimistic one.
    let s = summarize(&vec![inject(400)]);
    assert!(s.contains("net         : 0 bytes\n"));
    assert!(s.contains("净省 ≈ -100 est tok"));
}

#[test]
fn tools_stand_in_order_in_a_column() {
    let entries = vec![sandbox("b", 10), sandbox("a-long-name", 30), sandbox("b", 60)];
    let s = summarize(&entries);
    assert!(s.ends_with("  a-long-name: 30 bytes (30%)\n  b          : 70 bytes (70%)\n"));
    let t = add_up(&entries, None).unwrap();
    assert_eq!(t.saved, 100);
    assert_eq!(t.tools.iter().map(|r| r.1).sum::<usize>(), t.saved);
}

#[test]
fn what_an_entry_counts_for() {
    let r = rewrite("Read", 1000, 100);
    assert_eq!((saved_of(&r), cost_of(&r), orig_of(&r), tool_of(&r)), (900, 0, 1000, Some("Read")));
    let e = externalize(5, 9);
    assert_eq!((saved_of(&e), orig_of(&e)), (0, 5));
    let i = inject(7);
    assert_eq!((saved_of(&i), cost_of(&i), orig_of(&i), tool_of(&i)), (0, 7, 0, None));
    let s = sandbox("Bash", 3);
    assert_eq!((saved_of(&s), orig_of(&s), tool_of(&s)), (3, 0, Some("Bash")));
    let q = retrieval();
    assert_eq!((saved_of(&q), cost_of(&q), orig_of(&q), tool_of(&q)), (0, 0, 0, Some("Read")));
}

#[test]
fn sums_that_do_not_fit_are_not_reported() {
    let entries = vec![sandbox("a", usize::MAX / 100 + 1)];
    assert!(!totals_fit(&entries));
    assert!(session_report("session ", "x", &entries).is_none());
    assert!(report_all(&entries, 1).is_some());
    let entries = vec![sandbox("a", usize::MAX - 1), sandbox("a", 2)];
    assert!(report_all(&entries, 1).is_none());
    assert!(add_up(&entries, None).is_none());
}

#[test]
fn reports_have_headings() {
    let s = session_report("current session ", "cur", &vec![rewrite("Read", 1000, 100), inject(300)])
        .unwrap();
    assert!(s.starts_with("current session cur\nsaved       : 900 bytes"));
    assert!(s.contains("net         : 600 bytes"));
}

#[test]
fn all_sessions_together() {
    let entries = vec![rewrite("Read", 1000, 100), inject(300), retrieval()];
    assert_eq!(
        report_all(&entries, 2).unwrap(),
        "saved: 900 bytes (≈ 225 est tokens) across 2 session(s)\n\
         inject cost: 300 bytes (≈ 75 est tokens)\n\
         net: 600 bytes\n\
         \x20 ?: 0\n\
         \x20 Read: 900\n"
    );
}

#[test]
fn the_first_request_decides_what_is_reported() {
    let s = |x: &str| Some(x.to_string());
    let p = s("t.jsonl");
    assert_eq!(report(s("a"), true, true, p, s("c")), Scope::CacheHit("t.jsonl".to_string()));
    assert_eq!(report(s("a"), true, true, None, s("c")), Scope::Clean);
    assert_eq!(report(s("a"), true, false, None, s("c")), Scope::Session("a".to_string()));
    assert_eq!(report(None, true, false, None, s("c")), Scope::All);
    assert_eq!(report(None, false, false, None, s("c")), Scope::Current("c".to_string()));
    assert_eq!(report(None, false, false, None, None), Scope::All);
    assert_eq!(cleared(3), "tsk: cleared 3 ledger file(s) + current-session marker\n");
}

#[test]
fn cache_use_adds_up_over_turns() {
    let mut t = String::from("garbage\n{\"type\":\"user\",\"message\":{\"usage\":{\"input_tokens\":9}}}\n");
    for i in 0..4 {
        let read = if i % 2 == 0 { 400 } else { 100 };
        t += &format!(
            r#"{{"type":"assistant","message":{{"usage":{{"input_tokens":1000,"cache_read_input_tokens":{read}}}}}}}"#
        );
        t += "\n";
    }
    t += "{\"type\":\"assistant\",\"message\":{}}\n";
    let u = cache_use(&t).unwrap();
    assert_eq!((u.turns, u.reads, u.input), (4, 1000, 4000));
    let max = r#"{"type":"assistant","message":{"usage":{"input_tokens":18446744073709551615}}}"#;
    assert!(cache_use(&format!("{max}\n{max}\n")).is_none());
    assert_eq!(no_usage("/t"), "cache-hit: no usage data in /t\n");
}

#[test]
fn ledger_lines_are_json_with_fixed_fields() {
    assert_eq!(
        ledger::line(&rewrite("Read", 1000, 100)),
        r#"{"kind":"rewrite","ts":1,"session":"sess-r","tool":"Read","tu_id":"t1","strategy":"skeleton","orig_bytes":1000,"new_bytes":100,"saved":900}"#
    );
    assert_eq!(
        ledger::line(&retrieval()),
        r#"{"kind":"retrieval","ts":2,"session":"sess-r","tool":"Read","reason":"escape_hatch_offset_limit"}"#
    );
    assert_eq!(
        ledger::line(&externalize(104857, 1200)),
        r#"{"kind":"externalize","ts":3,"session":"sess-r","tool":"Read","orig_bytes":104857,"new_bytes":1200}"#
    );
    assert_eq!(
        ledger::line(&inject(3512)),
        r#"{"kind":"inject","ts":4,"session":"sess-r","source":"session_start_ruleset","bytes":3512}"#
    );
    assert_eq!(
        ledger::line(&sandbox("a\"b", 1)),
        r#"{"kind":"sandbox","ts":5,"session":"sess-r","tool":"a\"b","orig_bytes":2,"new_bytes":1,"saved":1}"#
    );
    let two = ledger::append(&vec![inject(1), inject(2)]);
    assert_eq!(two.lines().count(), 2);
    assert!(two.ends_with("\"bytes\":2}\n"));
    assert_eq!(
        [ledger::rewrite(), ledger::retrieval(), ledger::externalize(), ledger::inject(), ledger::sandbox()],
        ["rewrite", "retrieval", "externalize", "inject", "sandbox"]
    );
}

#[test]
fn numbers_as_text() {
    assert_eq!(fmt_int(0), "0");
    assert_eq!(fmt_int(999), "999");
    assert_eq!(fmt_int(1000), "1,000");
    assert_eq!(fmt_int(199700), "199,700");
    assert_eq!(fmt_int(1234567890), "1,234,567,890");
    assert_eq!(decimal(u64::MAX), u64::MAX.to_string());
    assert_eq!(signed(i64::MIN), i64::MIN.to_string());
    assert_eq!(signed(-10), "-10");
    assert_eq!(signed(i64::MAX), i64::MAX.to_string());
    assert_eq!(align_right("é", 3), "  é");
    assert_eq!(align_left("é", 3), "é  ");
    assert_eq!(align_left("long", 3), "long");
    assert_eq!(hex(&vec![0, 9, 10, 255]), "00090aff");
    assert_eq!((est_tok(0), est_tok(1), est_tok(4), est_tok(5)), (0, 1, 1, 2));
    assert_eq!(est_tok(usize::MAX), usize::MAX / 4 + 1);
}

#[test]
fn the_order_of_the_ledger_does_not_matter() {
    let forward = || {
        vec![
            rewrite("Read", 1000, 100),
            sandbox("Bash", 300),
            retrieval(),
            externalize(200_000, 1_200),
            inject(300),
            rewrite("Edit", 50, 20),
        ]
    };
    let want = summarize(&forward());
    let mut back = forward();
    back.reverse();
    assert_eq!(summarize(&back), want);
    for k in 1..6 {
        let mut turned = forward();
        turned.rotate_left(k);
        assert_eq!(summarize(&turned), want);
    }
    assert_eq!(want.lines().filter(|l| l.starts_with("  ")).count(), 3);
}
