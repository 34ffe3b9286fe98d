use tsk_core::config::SANDBOX_HARD_CAP;
use tsk_core::config::Limits;
use tsk_core::ledger::Entry;
use tsk_core::sandbox::{admit_input, clip, exec, filtered_env, run_words, script_cmd, watch, Watch};

fn vars(v: &[(&str, &str)]) -> Vec<(String, String)> {
    v.iter().map(|(k, x)| (k.to_string(), x.to_string())).collect()
}

#[test]
fn oversized_input_is_refused_before_spawn() {
    // The source tree's manifest is tiny, so this input must not be refused.
    let err = admit_input(Some(1200), &Limits::standard()).err().map(|r| r.input_bytes);
    assert!(err.is_none());
}

#[test]
fn an_input_over_the_cap_is_refused() {
    assert!(admit_input(Some(SANDBOX_HARD_CAP), &Limits::standard()).is_ok());
    let r = admit_input(Some(SANDBOX_HARD_CAP + 1), &Limits::standard()).unwrap_err();
    assert_eq!(r.input_bytes, 104857601);
    assert_eq!(r.message(&Limits::standard()), "input is 104857601 bytes, above the 104857600 byte cap");
    assert!(admit_input(None, &Limits::standard()).is_ok());
}

#[test]
fn allowlist_keeps_locale_but_drops_bootstrap_vars() {
    let keys: Vec<String> = filtered_env(vars(&[
        ("NODE_OPTIONS", "--require=evil.js"),
        ("PYTHONSTARTUP", "/tmp/x.py"),
        ("GIT_CONFIG_KEY_0", "a"),
        ("LANG", "C.UTF-8"),
    ]))
    .into_iter()
    .map(|(k, _)| k)
    .collect();
    assert!(keys.contains(&"LANG".to_string())); // preserved, never overwritten
    assert!(!keys.contains(&"NODE_OPTIONS".to_string()));
    assert!(!keys.contains(&"PYTHONSTARTUP".to_string()));
    assert!(!keys.iter().any(|k| k.starts_with("GIT_CONFIG_KEY_")));
}

#[test]
fn allowlist_is_exact_match() {
    let keys: Vec<String> =
        filtered_env(vars(&[("lowercase_lang", "C.UTF-8"), ("lang", "x"), ("LANG", "y")]))
            .into_iter()
            .map(|(k, _)| k)
            .collect();
    assert_eq!(keys, vec!["LANG"]);
}

#[test]
fn every_name_on_the_allowlist_passes_in_order() {
    let names = [
        "PATH", "HOME", "LANG", "LC_ALL", "TEMP", "TMP", "SYSTEMROOT", "SYSTEMDRIVE", "COMSPEC",
        "USERNAME",
    ];
    let given: Vec<(&str, &str)> = names.iter().map(|n| (*n, "v")).collect();
    assert_eq!(filtered_env(vars(&given)), vars(&given));
    assert!(filtered_env(vars(&[("LD_PRELOAD", "x"), ("HTTP_PROXY", "y"), ("FOO", "z")])).is_empty());
}

#[test]
fn scripts_start_by_themselves_except_on_windows() {
    assert_eq!(script_cmd("/s/a.py", false), vec!["/s/a.py"]);
    assert_eq!(script_cmd("a.py", true), vec!["python", "a.py"]);
    assert_eq!(script_cmd("a.mjs", true), vec!["node", "a.mjs"]);
    assert_eq!(script_cmd("a.bash", true), vec!["bash", "a.bash"]);
    assert_eq!(script_cmd("a.exe", true), vec!["a.exe"]);
    assert_eq!(
        script_cmd("p.ps1", true),
        vec!["powershell", "-NoProfile", "-NoLogo", "-ExecutionPolicy", "Bypass", "-File", "p.ps1"]
    );
}

#[test]
fn isolation_wraps_the_whole_command() {
    let args = vec!["x".to_string()];
    assert_eq!(run_words("s.sh", &args, "in", false, false), vec!["s.sh", "x", "in"]);
    assert_eq!(run_words("s.sh", &args, "in", false, true), vec!["unshare", "-n", "s.sh", "x", "in"]);
    assert_eq!(run_words("s.sh", &args, "in", true, true), vec!["bash", "s.sh", "x", "in"]);
}

#[test]
fn the_watchdog_waits_for_the_time_to_be_up() {
    assert_eq!(watch(false, 9, &Limits::standard()), Watch::Wait);
    assert_eq!(watch(false, 10, &Limits::standard()), Watch::Kill);
    assert_eq!(watch(true, 99, &Limits::standard()), Watch::Rest);
}

#[test]
fn output_within_the_maximum_is_shown_whole() {
    let out = "x".repeat(64 * 1024);
    let c = clip("/h", "s", &out, &Limits::standard());
    assert_eq!(c.shown, out);
    assert!(c.full.is_none());
}

#[test]
fn oversized_output_is_kept_and_cut() {
    let out: String = (1..=9000).map(|i| format!("row {i}\n")).collect();
    assert!(out.len() > 64 * 1024);
    let c = clip("/h", "s", &out, &Limits::standard());
    let f = c.full.unwrap();
    assert_eq!(f.text, out);
    assert!(f.path.starts_with("/h/s/ext/") && f.path.ends_with(".txt"));
    let keep: Vec<String> = (1..=200).map(|i| format!("row {i}")).collect();
    assert_eq!(
        c.shown,
        format!(
            "{}\n[TSK: output truncated; {} bytes total. Full text: {}]\n",
            keep.join("\n"),
            out.len(),
            f.path
        )
    );
}

#[test]
fn exec_accounts_for_the_input() {
    let r = exec("/h", "cli", "sum.py", 1000, "total=3\n", 7, &Limits::standard());
    assert_eq!(r.clipped.shown, "total=3\n");
    assert_eq!(r.event, "sandbox: 1000 -> 8 bytes (script sum.py)");
    match r.entry {
        Entry::Sandbox(e) => {
            assert_eq!((e.ts, e.orig_bytes, e.new_bytes, e.saved), (7, 1000, 8, 992));
            assert_eq!((e.session.as_str(), e.tool.as_str()), ("cli", "Bash"));
        }
        other => panic!("{other:?}"),
    }
    let r = exec("/h", "cli", "sum.py", 3, "total=3\n", 7, &Limits::standard());
    match r.entry {
        Entry::Sandbox(e) => assert_eq!(e.saved, 0),
        other => panic!("{other:?}"),
    }
}

#[test]
fn oversized_output_is_cut_in_bytes_too() {
    let out = "z".repeat(100 * 1024);
    let c = clip("/h", "s", &out, &Limits::standard());
    let f = c.full.unwrap();
    assert_eq!(f.text, out);
    let note =
        format!("\n[TSK: output truncated; {} bytes total. Full text: {}]\n", out.len(), f.path);
    assert_eq!(c.shown.len(), 64 * 1024);
    assert_eq!(c.shown, format!("{}{note}", "z".repeat(64 * 1024 - note.len())));
    // Long lines are cut between lines, and between characters where there is one line.
    let rows: String = (0..100).map(|i| format!("{i}{}\n", "y".repeat(1000))).collect();
    let c = clip("/h", "s", &rows, &Limits::standard());
    assert!(c.shown.len() <= 64 * 1024 && c.shown.contains("y\n\n[TSK: output truncated; "));
    let wide = "中".repeat(30_000);
    assert!(clip("/h", "s", &wide, &Limits::standard()).shown.len() <= 64 * 1024);
    // A note that is longer than the maximum is shown alone.
    let home = "h".repeat(70_000);
    let c = clip(&home, "s", &out, &Limits::standard());
    assert!(c.shown.starts_with("\n[TSK: output truncated; "));
}

#[test]
fn limits_hold_in_the_sandbox() {
    let mut l = Limits::standard();
    l.sandbox_hard_cap = 5;
    l.sandbox_timeout = 2;
    l.sandbox_max_output = 200;
    let e = admit_input(Some(6), &l).unwrap_err();
    assert_eq!(e.message(&l), "input is 6 bytes, above the 5 byte cap");
    assert!(admit_input(Some(5), &l).is_ok());
    assert_eq!(watch(false, 2, &l), Watch::Kill);
    assert_eq!(clip("/h", "s", &"x".repeat(201), &l).shown.len(), 200);
}

#[test]
fn windows_paths_have_interpreters_too() {
    assert_eq!(script_cmd("C:\\d.x\\a.py", true), vec!["python", "C:\\d.x\\a.py"]);
    assert_eq!(script_cmd("C:\\d.py\\run", true), vec!["C:\\d.py\\run"]);
}
