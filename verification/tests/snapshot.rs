use tsk_core::config::Limits;
use tsk_core::est_tokens;
use tsk_core::json::{parse, Json};
use tsk_core::snapshot::{
    assemble, assemble_with, assistant_text, build, collect_skills, decisions, dedup, ext_to_lang,
    first_user_or_paths, last_n, push_lang, read_documents, to_text, user_text, write_snapshot,
    Snapshot,
};

fn lim() -> Limits {
    Limits::standard()
}

fn doc(s: &str) -> Json {
    parse(s).unwrap()
}

fn strings(v: &[&str]) -> Vec<String> {
    v.iter().map(|s| s.to_string()).collect()
}

fn snap(role: &str, decisions: &[String], skills: &[String], intent: &str) -> Snapshot {
    Snapshot {
        v: 1,
        session: "s".to_string(),
        role: role.to_string(),
        decisions: decisions.to_vec(),
        skills: skills.to_vec(),
        intent: intent.to_string(),
    }
}

#[test]
fn user_messages_are_texts_or_blocks() {
    let t = |s: &str| user_text(&doc(s));
    assert_eq!(t(r#"{"message":{"content":"hello"}}"#), Some("hello".to_string()));
    assert_eq!(
        t(r#"{"message":{"content":[{"type":"tool_result","text":"no"},{"type":"text"},{"text":"yes"},{"text":"late"}]}}"#),
        Some("yes".to_string())
    );
    assert_eq!(t(r#"{"message":{"content":[{"type":"tool_result","text":"no"}]}}"#), None);
    assert_eq!(t(r#"{"message":{"content":7}}"#), None);
    assert_eq!(t(r#"{"message":{}}"#), None);
    assert_eq!(t("[]"), None);
}

#[test]
fn assistant_messages_are_their_text_blocks() {
    let r = doc(
        r#"{"message":{"content":[{"type":"text","text":"one"},{"type":"tool_use","text":"no"},{"type":"text"},{"type":"text","text":"two"}]}}"#,
    );
    assert_eq!(assistant_text(&r), "one\ntwo");
    assert_eq!(assistant_text(&doc(r#"{"message":{"content":"plain"}}"#)), "");
}

#[test]
fn skills_are_tools_and_languages() {
    let r = doc(
        r#"{"message":{"content":[
        {"type":"tool_use","name":"Read","input":{"file_path":"src/a.rs"}},
        {"type":"tool_use","name":"Read","input":{"file_path":"src/b.rs"}},
        {"type":"tool_use","name":"Edit","input":{"file_path":"x.unknown"}},
        {"type":"tool_use","input":{"file_path":"c.py"}},
        {"type":"text","name":"Bash"},
        {"type":"tool_use","name":"Bash"}]}}"#,
    );
    let mut skills = strings(&["go"]);
    collect_skills(&r, &mut skills);
    assert_eq!(skills, strings(&["go", "Read", "rust", "Read", "Edit", "Bash"]));
}

#[test]
fn extensions_name_languages() {
    for (e, l) in [
        ("rs", "rust"),
        ("py", "python"),
        ("mjs", "javascript"),
        ("tsx", "typescript"),
        ("go", "go"),
        ("zsh", "shell"),
        ("ini", "config"),
        ("md", "markdown"),
        ("json", "json"),
        ("yml", "yaml"),
        ("css", "web"),
        ("RS", ""),
        ("", ""),
    ] {
        assert_eq!(ext_to_lang(e), l);
    }
    let mut v = strings(&["a"]);
    push_lang(&mut v, "");
    push_lang(&mut v, "a");
    push_lang(&mut v, "b");
    assert_eq!(v, strings(&["a", "b"]));
}

#[test]
fn lists_are_deduplicated_and_cut_at_the_front() {
    assert_eq!(dedup(&strings(&["a", "b", "a", "c", "b"])), strings(&["a", "b", "c"]));
    assert_eq!(last_n(&strings(&["a", "b", "c"]), 2), strings(&["b", "c"]));
    assert_eq!(last_n(&strings(&["a"]), 2), strings(&["a"]));
    assert_eq!(last_n(&strings(&["a"]), 0), strings(&[]));
}

#[test]
fn decisions_are_recognized() {
    let msgs = strings(&[
        "Decision: use Rust\nnothing here\n  决定：先写测试  ",
        "We will use serde.\n\nDECISION made: keep it\n决定 采用 B\ndecisions, decisions",
        "The chosen path\nDecision: use Rust",
    ]);
    assert_eq!(
        decisions(&msgs, &lim()),
        strings(&[
            "Decision: use Rust",
            "The chosen path",
            "决定 采用 B",
            "DECISION made: keep it",
            "We will use serde.",
        ])
    );
    assert_eq!(decisions(&strings(&["决定：先写测试"]), &lim()), strings(&["决定：先写测试"]));
    assert!(decisions(&strings(&["decisions, decisions", "indecision: no"]), &lim()).is_empty());
}

#[test]
fn a_decision_is_cut_to_two_hundred_characters() {
    let long = format!("decision: {}", "é".repeat(300));
    let got = decisions(&vec![long], &lim());
    assert_eq!(got.len(), 1);
    assert_eq!(got[0].chars().count(), 200);
}

#[test]
fn the_role_is_the_first_message_or_the_paths() {
    let users = strings(&["  please fix the login form  ", "later"]);
    assert_eq!(first_user_or_paths(&users, &vec![], &lim()), "  please fix the login form  ");
    let long = strings(&[&"x".repeat(500)]);
    assert_eq!(first_user_or_paths(&long, &vec![], &lim()), "x".repeat(400));
    assert_eq!(first_user_or_paths(&strings(&["hi"]), &vec![], &lim()), "");
    let rec = |p: &str| doc(&format!(r#"{{"tool_input":{{"file_path":"{p}"}}}}"#));
    let recs: Vec<Json> =
        ["b", "a", "c", "a", "g", "f", "e", "d", "c", "c"].iter().map(|p| rec(p)).collect();
    assert_eq!(
        first_user_or_paths(&strings(&["hi"]), &recs, &lim()),
        "Working on: c, a, b, d, e, f"
    );
}

#[test]
fn lines_that_are_no_documents_are_skipped() {
    let docs = read_documents("{\"a\":1}\nnot json\n\n[2]\r\n");
    assert_eq!(docs.len(), 2);
    assert_eq!(docs[1].render(), "[2]");
}

const TRANSCRIPT: &str = r#"{"type":"user","message":{"content":"Build the report command for the ledger"}}
broken
{"type":"assistant","message":{"content":[{"type":"text","text":"Decision: sort by tool"},{"type":"tool_use","name":"Read","input":{"file_path":"/p/main.rs"}}]}}
{"type":"assistant","message":{"content":[{"type":"tool_use","name":"Bash"}]}}
{"type":"user","message":{"content":[{"type":"tool_result","text":"ok"},{"type":"text","text":"now add tests"}]}}
"#;

#[test]
fn a_transcript_becomes_a_snapshot() {
    let s = build(TRANSCRIPT, "abc", &lim());
    assert_eq!(
        s,
        Snapshot {
            v: 1,
            session: "abc".to_string(),
            role: "Build the report command for the ledger".to_string(),
            decisions: strings(&["Decision: sort by tool"]),
            skills: strings(&["Read", "rust", "Bash"]),
            intent: "now add tests".to_string(),
        }
    );
    let empty = build("", "abc", &lim());
    assert_eq!(empty.role, "");
    assert_eq!(empty.intent, "");
    assert!(empty.decisions.is_empty() && empty.skills.is_empty());
}

#[test]
fn a_snapshot_on_disk_is_json() {
    let s = snap("r\"1\"", &strings(&["d1", "d2"]), &strings(&["k"]), "go\n");
    let t = to_text(&s);
    assert_eq!(
        t,
        r#"{"v":1,"session":"s","role":"r\"1\"","decisions":["d1","d2"],"skills":["k"],"intent":"go\n"}"#
    );
    assert_eq!(write_snapshot(&s, &lim()), t);
    assert!(parse(&t).is_ok());
}

#[test]
fn a_large_snapshot_drops_what_matters_least() {
    let skills: Vec<String> = (0..10).map(|i| format!("{i}{}", "k".repeat(150))).collect();
    let decisions: Vec<String> = (0..5).map(|i| format!("{i}{}", "d".repeat(199))).collect();
    let s = snap(&"r".repeat(400), &decisions, &skills, &"i".repeat(200));
    let t = write_snapshot(&s, &lim());
    assert!(t.len() <= 2048);
    let j = parse(&t).unwrap();
    assert_eq!(j.get("intent"), Some(&Json::Text(String::new())));
    // The role and the decisions are whole; the oldest skills went first.
    assert_eq!(j.get("role"), Some(&Json::Text("r".repeat(400))));
    match j.get("decisions") {
        Some(Json::List(d)) => assert_eq!(d.len(), 5),
        other => panic!("{other:?}"),
    }
    match j.get("skills") {
        Some(Json::List(k)) => {
            assert!(!k.is_empty() && k.len() < 10);
            assert_eq!(k[k.len() - 1], Json::Text(skills[9].clone()));
        }
        other => panic!("{other:?}"),
    }
}

#[test]
fn only_the_role_can_exceed_the_maximum() {
    let s = snap(&"\u{1}".repeat(400), &strings(&["d"]), &strings(&["k"]), "i");
    let t = write_snapshot(&s, &lim());
    assert!(t.len() > 2048);
    let j = parse(&t).unwrap();
    assert_eq!(j.get("decisions"), Some(&Json::List(vec![])));
    assert_eq!(j.get("skills"), Some(&Json::List(vec![])));
    // Of the decisions the oldest, which stands last, goes first.
    let decisions: Vec<String> = (0..5).map(|i| format!("{i}{}", "d".repeat(500))).collect();
    let j = parse(&write_snapshot(&snap("r", &decisions, &[], ""), &lim())).unwrap();
    match j.get("decisions") {
        Some(Json::List(d)) => {
            assert_eq!(d.len(), 3);
            assert_eq!(d[0], Json::Text(decisions[0].clone()));
        }
        other => panic!("{other:?}"),
    }
}

#[test]
fn a_small_snapshot_is_injected_whole() {
    let s = snap("role", &strings(&["d1", "d2"]), &strings(&["k1", "k2", "k1"]), "intent");
    assert_eq!(
        assemble(&s),
        "ROLE: role\nDECISIONS: d1 | d2\nSKILLS: k1 | k2\nINTENT: intent"
    );
    assert_eq!(assemble(&snap("", &[], &[], "")), "ROLE: \nDECISIONS: \nSKILLS: \nINTENT: ");
}

#[test]
fn a_pathological_snapshot_stays_within_the_budget() {
    let decisions: Vec<String> = (0..10)
        .map(|i| format!("Decision {i}: {}", "very detailed architectural rationale text ".repeat(12)))
        .collect();
    let skills: Vec<String> =
        (0..15).map(|i| format!("comprehensive-skill-identifier-{i}-with-suffix")).collect();
    let s = snap(
        "Rust CLI token-reduction plugin for agent sessions",
        &decisions,
        &skills,
        &"The user intent statement ".repeat(8),
    );
    let got = assemble(&s);
    assert!(est_tokens(&got) <= 520, "est {}", est_tokens(&got));
    let parts: Vec<&str> = got.split('\n').collect();
    let sum = est_tokens(&parts[0]["ROLE: ".len()..])
        + est_tokens(&parts[1]["DECISIONS: ".len()..])
        + est_tokens(&parts[2]["SKILLS: ".len()..])
        + est_tokens(&parts[3]["INTENT: ".len()..]);
    assert!(sum <= 500, "sum {sum}");
    assert_eq!(parts[3], "INTENT: ");
    // Three decisions are left, and the most recent skills.
    assert_eq!(parts[1].matches("Decision ").count(), 3);
    assert!(parts[2].ends_with("identifier-14-with-suffix"));
}

#[test]
fn the_budget_takes_parts_in_order() {
    let s = snap("r", &strings(&["d1", "d2"]), &strings(&["k1", "k2"]), "iiiiiiii");
    // 1 + 2 + 2 + 2 tokens in all: a joined pair has seven bytes.
    assert!(assemble_with(&s, 7, &lim()).ends_with("INTENT: iiiiiiii"));
    assert_eq!(assemble_with(&s, 6, &lim()), "ROLE: r\nDECISIONS: d1 | d2\nSKILLS: k1 | k2\nINTENT: ");
    assert_eq!(assemble_with(&s, 4, &lim()), "ROLE: r\nDECISIONS: d1 | d2\nSKILLS: k2\nINTENT: ");
    assert_eq!(assemble_with(&s, 3, &lim()), "ROLE: r\nDECISIONS: d1\nSKILLS: k2\nINTENT: ");
    assert_eq!(assemble_with(&s, 0, &lim()), "ROLE: r\nDECISIONS: d1\nSKILLS: k2\nINTENT: ");
    let five = snap("r", &strings(&["1", "2", "3", "4", "5"]), &[], "");
    assert!(assemble_with(&five, 4, &lim()).contains("1 | 2 | 3\n"));
}

#[test]
fn tokens_are_quarters_of_bytes() {
    assert_eq!(est_tokens(""), 0);
    assert_eq!(est_tokens("abcd"), 1);
    assert_eq!(est_tokens("abcde"), 2);
    assert_eq!(est_tokens("中中"), 2);
}

#[test]
fn a_snapshot_is_small_whatever_the_transcript() {
    let mut t = String::new();
    for i in 0..40 {
        let long = "x".repeat(300);
        t.push_str(&format!(
            "{{\"type\":\"assistant\",\"message\":{{\"content\":[{{\"type\":\"text\",\"text\":\"Decision: {i} {long}\"}},{{\"type\":\"tool_use\",\"name\":\"T{i}\"}}]}}}}\n"
        ));
        t.push_str(&format!(
            "{{\"type\":\"user\",\"message\":{{\"content\":\"do {i} {long}\"}}}}\n"
        ));
    }
    let s = build(&t, "s", &lim());
    assert_eq!(s.decisions.len(), 5);
    assert!(s.decisions[0].starts_with("Decision: 39 "));
    assert!(s.decisions.iter().all(|d| d.chars().count() == 200));
    assert_eq!(s.skills.len(), 10);
    assert_eq!((s.skills[0].as_str(), s.skills[9].as_str()), ("T30", "T39"));
    assert_eq!(s.intent.chars().count(), 200);
}

#[test]
fn a_snapshot_on_disk_reads_back() {
    let s = snap("say \"hi\"\n\u{1}", &strings(&["a\\b", "c"]), &strings(&["rust"]), "\u{7528}");
    let list = |v: &[String]| Json::List(v.iter().map(|t| Json::Text(t.clone())).collect());
    match parse(&write_snapshot(&s, &lim())).unwrap() {
        Json::Object(members) => {
            let get = |k: &str| members.iter().find(|(key, _)| key == k).map(|(_, v)| v);
            assert_eq!(get("role"), Some(&Json::Text(s.role.clone())));
            assert_eq!(get("intent"), Some(&Json::Text(s.intent.clone())));
            assert_eq!(get("decisions"), Some(&list(&s.decisions)));
            assert_eq!(get("skills"), Some(&list(&s.skills)));
            assert_eq!(members.len(), 6);
        }
        other => panic!("{other:?}"),
    }
}

#[test]
fn the_latest_decision_comes_first() {
    let d = |v: &[&str]| decisions(&strings(v), &lim());
    assert_eq!(d(&["Decision: a\nDecision: b"]), strings(&["Decision: b", "Decision: a"]));
    assert_eq!(
        d(&["Decision: a\nDecision: b", "Decision: c\nno\nDecision: a"]),
        strings(&["Decision: a", "Decision: c", "Decision: b"])
    );
    let seven: Vec<String> = (1..=7).map(|i| format!("Decision: {i}")).collect();
    assert_eq!(
        d(&[&seven.join("\n")]),
        strings(&["Decision: 7", "Decision: 6", "Decision: 5", "Decision: 4", "Decision: 3"])
    );
}

#[test]
fn tool_calls_touch_their_files() {
    let recs = vec![
        doc(r#"{"type":"assistant","message":{"content":[{"type":"tool_use","name":"Read","input":{"file_path":"src/db.rs"}}]}}"#),
        doc(r#"{"type":"assistant","message":{"content":[{"type":"text","input":{"file_path":"no"}},{"type":"tool_use","name":"Edit","input":{"file_path":"a.rs"}},{"type":"tool_use","name":"Read","input":{"file_path":"src/db.rs"}}]}}"#),
        doc(r#"{"tool_input":{"file_path":"z.rs"},"message":{"content":"text"}}"#),
    ];
    let users = strings(&["fix"]);
    let one = vec![doc(&recs[0].render())];
    assert_eq!(first_user_or_paths(&users, &one, &lim()), "Working on: src/db.rs");
    assert_eq!(first_user_or_paths(&users, &recs, &lim()), "Working on: src/db.rs, a.rs, z.rs");
}

#[test]
fn limits_hold_in_the_snapshot() {
    let mut l = lim();
    l.inject_p1_max_chars = 25;
    l.inject_p2_n = 1;
    l.inject_p3_n = 2;
    let s = build(TRANSCRIPT, "abc", &l);
    assert_eq!(s.role, "Build the report command ");
    assert_eq!(s.skills, strings(&["rust", "Bash"]));
    l.snapshot_max = 100;
    let j = parse(&write_snapshot(&s, &l)).unwrap();
    assert_eq!(j.get("skills"), Some(&Json::List(vec![])));
}
