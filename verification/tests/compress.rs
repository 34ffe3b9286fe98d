use tsk_core::compress::externalize::{externalize, head};
use tsk_core::compress::skeleton::{emit_line, skeleton, skeleton_within, strip_nl, write_head};
use tsk_core::config::Limits;

fn text(n: usize) -> String {
    (1..=n).map(|i| format!("line {i}\n")).collect()
}

#[test]
fn small_files_pass_through() {
    assert!(skeleton(&text(7), "a.txt").is_none());
    assert!(skeleton(&text(8), "a.txt").is_none()); // head 5 + tail 3 would touch
}

#[test]
fn exact_shape() {
    let got = skeleton(&text(10), "a.txt").unwrap();
    // Numbers right-aligned to 6 columns, then TAB, then the original line.
    let expected = [
        "[TSK SKELETON of a.txt | 10 lines total | head 5 + tail 3 | TSK v1]",
        "     1\tline 1",
        "     2\tline 2",
        "     3\tline 3",
        "     4\tline 4",
        "     5\tline 5",
        "[TSK omitted lines 6..7. Full file: Read a.txt with offset/limit, or Grep <pattern> a.txt]",
        "     8\tline 8",
        "     9\tline 9",
        "    10\tline 10",
    ]
    .join("\n")
        + "\n";
    assert_eq!(got, expected);
}

#[test]
fn pure() {
    let a = skeleton(&text(50), "a.txt");
    let b = skeleton(&text(50), "a.txt");
    assert_eq!(a, b);
}

#[test]
fn marker_points_at_offset_limit_escape() {
    let s = skeleton(&text(100), "data/big.log").unwrap();
    assert!(s.contains("Read data/big.log with offset/limit"));
    assert!(s.contains("[TSK omitted lines 6..97."));
}

#[test]
fn preserves_non_ascii_verbatim() {
    let t = "第一行\n第二行\n第三行\n第四行\n第五行\n第六行\n第七行\n第八行\n第九行\n第十行\n";
    let s = skeleton(t, "中.txt").unwrap();
    assert!(s.contains("第一行"));
    assert!(s.contains("第十行"));
}

#[test]
fn nine_lines_are_the_first_with_a_skeleton() {
    let s = skeleton(&text(9), "a").unwrap();
    assert!(s.contains("[TSK omitted lines 6..6."));
    assert!(s.contains("     5\tline 5\n"));
    assert!(s.contains("     7\tline 7\n"));
    assert!(!s.contains("line 6"));
}

#[test]
fn line_endings_do_not_reach_the_skeleton() {
    let crlf: String = (1..=12).map(|i| format!("row {i}\r\n")).collect();
    let s = skeleton(&crlf, "w.txt").unwrap();
    assert!(!s.contains('\r'));
    assert!(s.contains("    12\trow 12\n"));
    // A last line without a line feed counts as a line; its carriage return goes too.
    let open: String = (1..=11).map(|i| format!("row {i}\n")).collect::<String>() + "row 12\r";
    let s = skeleton(&open, "w.txt").unwrap();
    assert!(s.starts_with("[TSK SKELETON of w.txt | 12 lines total"));
    assert!(s.ends_with("    12\trow 12\n"));
}

#[test]
fn head_and_tail_stand_verbatim_for_many_lengths() {
    for n in [9usize, 10, 57, 1000, 120_000] {
        let t = text(n);
        let s = skeleton(&t, "x").unwrap();
        let got: Vec<&str> = s.lines().collect();
        assert_eq!(got.len(), 10);
        for (at, num) in [(1, 1), (5, 5), (7, n - 2), (8, n - 1), (9, n)] {
            assert_eq!(got[at], format!("{num:>6}\tline {num}"));
        }
    }
}

#[test]
fn the_parts_of_a_skeleton_line_by_line() {
    assert_eq!(strip_nl("a\r\n"), "a");
    assert_eq!(strip_nl("a\n"), "a");
    assert_eq!(strip_nl("a\r"), "a");
    assert_eq!(strip_nl("a\r\r\n"), "a\r");
    assert_eq!(strip_nl(""), "");
    let mut out = String::from("<");
    write_head(&mut out, "f", 12, &Limits::standard());
    assert_eq!(out, "<[TSK SKELETON of f | 12 lines total | head 5 + tail 3 | TSK v1]\n");
    let mut out = String::new();
    emit_line(&mut out, 1234567, "wide");
    emit_line(&mut out, 3, "ended\n");
    emit_line(&mut out, 4, "");
    assert_eq!(out, "1234567\twide\n     3\tended\n     4\t\n");
}

#[test]
fn head_is_utf8_safe_and_line_bounded() {
    assert_eq!(head("a".repeat(2000).as_str(), 1024).len(), 1024);

    let lines: String = (0..200).map(|i| format!("{i}\n")).collect();
    assert!(head(&lines, 50).ends_with('\n'));
}

#[test]
fn head_cuts_between_characters() {
    // Three bytes each: 10 bytes hold three of them.
    assert_eq!(head("中中中中中", 10), "中中中");
    assert_eq!(head("éé", 3), "é");
    assert_eq!(head("😀😀", 7), "😀");
    assert_eq!(head("😀", 3), "");
    assert_eq!(head("abc", 3), "abc");
    assert_eq!(head("ab\ncd\nef", 7), "ab\ncd\n");
    assert_eq!(head("ab\ncd", 4), "ab\n");
    assert_eq!(head("abcdef", 0), "");
}

#[test]
fn the_pointer_names_the_file_with_everything() {
    let s = "x".repeat(3000);
    let got = externalize("/h", "sess-t", &s);
    assert_eq!(got.bytes, 3000);
    assert_eq!(got.pointer_bytes, got.pointer_text.len());
    assert!(got.pointer_text.starts_with("[TSK EXTERNALIZED output of Read | original 3000 bytes"));
    assert!(got.pointer_text.contains(&format!("full: {}", got.full)));
    assert!(got.pointer_text.contains("[TSK excerpt: head 1KB follows"));
    assert!(got.pointer_text.ends_with(&"x".repeat(1024)));
    assert!(!got.pointer_text.ends_with(&"x".repeat(1025)));
}

#[test]
fn externalized_files_are_named_by_digest() {
    let got = externalize("/home/me/.tsk", "s", "abc");
    let dir = "/home/me/.tsk/s/ext";
    let digest = "a9993e364706816aba3e25717850c26c9cd0d89d";
    assert_eq!(got.full, format!("{dir}/{digest}.txt"));
    assert_eq!(got.pointer, format!("{dir}/{digest}.pointer.txt"));
    assert_eq!(
        got.pointer_text,
        format!(
            "[TSK EXTERNALIZED output of Read | original 3 bytes | full: {dir}/{digest}.txt]\n\
             [TSK excerpt: head 1KB follows; retrieve full content via Read on the path above]\nabc"
        )
    );
}

#[test]
fn limits_move_the_ends_of_a_skeleton() {
    let mut l = Limits::standard();
    l.skeleton_head = 2;
    l.skeleton_tail = 1;
    l.min_lines = 4;
    assert_eq!(
        skeleton_within("a\nb\nc\nd\n", "f", &l).unwrap(),
        "[TSK SKELETON of f | 4 lines total | head 2 + tail 1 | TSK v1]\n     1\ta\n     2\tb\n\
         [TSK omitted lines 3..3. Full file: Read f with offset/limit, or Grep <pattern> f]\n     4\td\n"
    );
    assert!(skeleton_within("a\nb\nc\n", "f", &l).is_none());
    l.skeleton_head = usize::MAX;
    l.skeleton_tail = usize::MAX;
    assert!(skeleton_within(&text(100), "f", &l).is_none());
}
