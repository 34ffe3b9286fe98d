use tsk_core::search::{
    document_frequency, is_indexed, search, snippet_around_hit, statistics, tokenize, IndexedFile,
};

fn file(path: &str, session: &str, text: &str) -> IndexedFile {
    IndexedFile {
        path: path.to_string(),
        session: session.to_string(),
        title: path.to_string(),
        bytes: text.len(),
        text: text.to_string(),
    }
}

#[test]
fn tokenize_splits_and_lowercases() {
    assert_eq!(tokenize("Error: Cannot find foo_bar"), vec!["error", "cannot", "find", "foo_bar"]);
}

#[test]
fn tokenize_drops_words_of_one_byte() {
    assert_eq!(tokenize("a bb c-d 7 é 中 x_"), vec!["bb", "é", "中", "x_"]);
    assert!(tokenize("").is_empty());
    assert!(tokenize("- . !").is_empty());
    assert_eq!(tokenize("ÀB ΑΣ"), vec!["àb", "ας"]);
}

#[test]
fn search_finds_exact_line_snippet() {
    let text = "line a\nline b\nERROR 404 at foo\nline d\nline e\nline f\nline g\n";
    let q: Vec<String> = ["error"].iter().map(|s| s.to_string()).collect();
    let s = snippet_around_hit(text, &q, 1);
    assert!(s.contains("ERROR 404 at foo"), "snippet must keep exact hit, got: {s}");
    assert!(s.contains("line b") && s.contains("line d"), "snippet should include neighbors");
}

#[test]
fn a_snippet_says_what_it_leaves_out() {
    let text = "1\n2\n3\n4\nhit\n6\n7\n8\n9\n";
    let q = vec!["hit".to_string()];
    assert_eq!(snippet_around_hit(text, &q, 1), "…[1 lines above]…\n4\nhit\n6\n…[3 lines below]…");
    assert_eq!(snippet_around_hit(text, &q, 4), "1\n2\n3\n4\nhit\n6\n7\n8\n9");
    assert_eq!(snippet_around_hit(text, &q, usize::MAX), "1\n2\n3\n4\nhit\n6\n7\n8\n9");
    assert_eq!(snippet_around_hit("only hit", &q, 0), "only hit");
}

#[test]
fn without_a_hit_the_beginning_is_shown() {
    let q = vec!["absent".to_string()];
    let text = "é".repeat(700);
    assert_eq!(snippet_around_hit(&text, &q, 6), "é".repeat(600));
    assert_eq!(snippet_around_hit("short", &q, 6), "short");
    assert_eq!(snippet_around_hit("", &q, 6), "");
}

#[test]
fn statistics_count_words_by_text_and_session() {
    let files = vec![
        file("a", "s1", "error error ok"),
        file("b", "s2", "ok fine"),
        file("c", "s1", "nothing here"),
    ];
    let all = statistics("Error OK error", &files, None);
    assert_eq!(all.words, vec!["error", "ok"]);
    assert_eq!(all.docs, vec![0, 1, 2]);
    assert_eq!(all.counts, vec![vec![2, 1], vec![0, 1], vec![0, 0]]);
    assert_eq!(document_frequency(&all, 0), 1);
    assert_eq!(document_frequency(&all, 1), 2);
    let one = statistics("ok", &files, Some("s1"));
    assert_eq!(one.docs, vec![0, 2]);
    assert_eq!(one.counts, vec![vec![1], vec![0]]);
}

#[test]
fn results_come_by_score_and_then_by_place() {
    let files = vec![
        file("a", "s", "x1 low"),
        file("b", "s", "x1 high"),
        file("c", "s", "x1 same"),
        file("d", "s", "none of it"),
    ];
    let stats = statistics("x1", &files, None);
    let scores = vec![5, 9, 5, 7];
    let got: Vec<(String, u32)> =
        search(&files, &stats, &scores, 10).into_iter().map(|h| (h.path, h.score)).collect();
    assert_eq!(got, vec![("b".to_string(), 9), ("a".to_string(), 5), ("c".to_string(), 5)]);
    let two = search(&files, &stats, &scores, 2);
    assert_eq!(two.len(), 2);
    assert_eq!(two[0].bytes, "x1 high".len());
    assert_eq!(two[0].snippet, "x1 high");
    // At least one result is shown, whatever is asked for.
    assert_eq!(search(&files, &stats, &scores, 0).len(), 1);
}

#[test]
fn a_query_without_words_finds_nothing() {
    let files = vec![file("a", "s", "x1")];
    let stats = statistics("- !", &files, None);
    assert!(stats.words.is_empty());
    assert!(search(&files, &stats, &vec![1], 5).is_empty());
}

#[test]
fn only_texts_of_reasonable_size_are_searched() {
    assert!(is_indexed("/h/s/ext/a.txt", 10));
    assert!(is_indexed("a.txt", 1024 * 1024));
    assert!(!is_indexed("a.txt", 0));
    assert!(!is_indexed("a.txt", 1024 * 1024 + 1));
    assert!(!is_indexed("a.log", 10));
    assert!(!is_indexed(".txt", 10));
}

#[test]
fn a_result_has_a_word_of_the_query() {
    let files = vec![file("a", "s", "alpha"), file("b", "s", "beta"), file("c", "t", "alpha beta")];
    let stats = statistics("beta", &files, Some("s"));
    // A score does not make a result of a text without the word, nor one of another session.
    let got = search(&files, &stats, &vec![9, 0], 5);
    assert_eq!(got.iter().map(|h| h.path.as_str()).collect::<Vec<_>>(), vec!["b"]);
    assert_eq!(got[0].score, 0);
}
