use std::path::Path;
use tsk_core::path;
use tsk_core::storage::{
    canonical_path, current_session_file, derive_skeleton_path, digest_text, ext_dir,
    read_current_session, session_dir, sha1_hex, skeleton_dir, tsk_home,
};
use tsk_core::text;

const PATHS: &[&str] = &[
    "", "/", "//", ".", "./", "..", "a", "a/", "/a", "//a", "a//b", "a/./b", "./a", "././a", "/./a",
    "a/.", "a/..", "a/../b", "/a/b/c.txt", "/a/b/", "c.tar.gz", ".bashrc", "..x", "a.", "x/.hidden.md",
    "中/文.rs", "a b/c d.e", "/a/./b//c/./d.log/", "/.", "./.", "a/b/.",
];

#[test]
fn paths_agree_with_the_standard_library() {
    for p in PATHS {
        let std_path = Path::new(p);
        let name = std_path.file_name().map(|n| n.to_string_lossy().into_owned());
        assert_eq!(path::file_name(p), name, "file name of {p:?}");
        let ext = std_path.extension().map(|n| n.to_string_lossy().into_owned());
        assert_eq!(path::extension(p), ext, "extension of {p:?}");
        let parts: Vec<String> =
            std_path.components().map(|c| c.as_os_str().to_string_lossy().into_owned()).collect();
        assert_eq!(path::components(p), parts, "components of {p:?}");
        for base in PATHS {
            let b = Path::new(base);
            assert_eq!(path::starts_with(p, base), std_path.starts_with(b), "{p:?} under {base:?}");
            let rest = std_path.strip_prefix(b).ok().map(|r| r.to_string_lossy().into_owned());
            assert_eq!(path::strip_prefix(p, base), rest, "{p:?} below {base:?}");
            assert_eq!(path::join(p, base), std_path.join(b).to_string_lossy(), "{p:?} + {base:?}");
        }
    }
}

#[test]
fn the_home_is_found_in_order() {
    let s = |x: &str| Some(x.to_string());
    assert_eq!(tsk_home(s("/t"), s("/h"), s("/u")), "/t");
    assert_eq!(tsk_home(None, s("/h"), s("/u")), "/h/.tsk");
    assert_eq!(tsk_home(None, None, s("/u/")), "/u/.tsk");
    assert_eq!(tsk_home(None, None, None), "./.tsk");
}

#[test]
fn the_layout_of_the_two_trees() {
    assert_eq!(session_dir("/t", "s1"), "/t/s1");
    assert_eq!(ext_dir("/t", "s1"), "/t/s1/ext");
    assert_eq!(current_session_file("/t"), "/t/current-session");
    assert_eq!(skeleton_dir("/p"), "/p/.tsk/skeletons");
}

#[test]
fn the_current_session_is_trimmed() {
    assert_eq!(read_current_session(Some(" s1\n")), Some("s1".to_string()));
    assert_eq!(read_current_session(Some(" \n")), None);
    assert_eq!(read_current_session(None), None);
}

#[test]
fn digests_are_sha1() {
    assert_eq!(sha1_hex(b""), "da39a3ee5e6b4b0d3255bfef95601890afd80709");
    assert_eq!(sha1_hex(b"abc"), "a9993e364706816aba3e25717850c26c9cd0d89d");
    assert_eq!(digest_text("中"), sha1_hex("中".as_bytes()));
}

#[test]
fn canonical_paths_are_stable() {
    for (p, c) in [
        ("a\\b\\c", "a/b/c"),
        ("/a/b/", "/a/b"),
        ("/a/./b/.", "/a/b"),
        ("./a", "a"),
        ("a///", "a"),
        ("a/../b", "a/../b"),
        ("C:\\x\\.\\y", "C:/x/y"),
        ("/", ""),
        (".", ""),
        ("..", ".."),
        ("a//b", "a//b"),
    ] {
        assert_eq!(canonical_path(p), c, "{p:?}");
        assert_eq!(canonical_path(&canonical_path(p)), c);
    }
}

#[test]
fn one_file_has_one_skeleton() {
    let a = derive_skeleton_path("/p", "/p/src/a.rs");
    assert_eq!(a, derive_skeleton_path("/p", "/p/src/a.rs"));
    assert_eq!(a, format!("/p/.tsk/skeletons/{}-a.rs.skeleton.txt", sha1_hex(b"/p/src/a.rs")));
    assert_eq!(a, derive_skeleton_path("/p", "/p/./src/a.rs"));
    assert_ne!(a, derive_skeleton_path("/p", "/p/src2/a.rs"));
    assert!(derive_skeleton_path("/p", "/").ends_with("-unnamed.skeleton.txt"));
}

#[test]
fn white_space_is_that_of_unicode() {
    for n in 0..=0x10ffffu32 {
        if let Some(c) = char::from_u32(n) {
            assert_eq!(text::is_white(c), c.is_whitespace(), "{n:x}");
        }
    }
}

const TEXTS: &[&str] = &[
    "", "a", "\n", "\r\n", "a\n", "a\r\n", "a\rb\r", "a\n\nb", "\na\n", "x\r\r\n", " \t a b \u{3000}",
    "aaa", "ababab", "中文\n中文", "é", "\r", "a\nb\r",
];

#[test]
fn texts_agree_with_the_standard_library() {
    for s in TEXTS {
        let lines: Vec<String> = s.lines().map(|l| l.to_string()).collect();
        assert_eq!(text::lines(s), lines, "{s:?}");
        let parts: Vec<String> = s.split('\n').map(|l| l.to_string()).collect();
        assert_eq!(text::split(s, '\n'), parts, "{s:?}");
        assert_eq!(text::join(&parts, "--"), parts.join("--"));
        assert_eq!(text::trim(s), s.trim());
        assert_eq!(text::byte_len(s), s.len());
        assert_eq!(text::take_chars(s, 2), s.chars().take(2).collect::<String>());
        for t in TEXTS {
            assert_eq!(text::contains(s, t), s.contains(t), "{s:?} {t:?}");
            assert_eq!(text::starts_with(s, t), s.starts_with(t));
            assert_eq!(text::same(s, t), s == t);
            assert_eq!(text::is_before(s, t), s < t, "{s:?} {t:?}");
            if !t.is_empty() {
                assert_eq!(text::count(s, t), s.matches(t).count());
                assert_eq!(text::replace(s, t, "<>"), s.replace(t, "<>"));
            }
        }
    }
}

#[test]
fn the_clock_counts_milliseconds() {
    assert_eq!(tsk_core::millis(None), 0);
    assert_eq!(tsk_core::millis(Some(1_700_000_000_123)), 1_700_000_000_123);
    assert_eq!(tsk_core::millis(Some((1u128 << 64) + 3)), 3);
    let earlier = tsk_core::now_millis();
    assert!(earlier > 1_600_000_000_000 && earlier < 10_000_000_000_000);
}

#[test]
fn windows_paths_get_forward_slashes() {
    assert_eq!(path::portable("D:\\project\\bigfile.txt", true), "D:/project/bigfile.txt");
    assert_eq!(path::portable("a\\b.txt", false), "a\\b.txt");
    assert_eq!(path::portable("\\\\?\\C:\\x", true), "\\\\?\\C:\\x");
    let p = path::portable("D:\\project\\bigfile.txt", true);
    assert_eq!(path::file_name(&p).as_deref(), Some("bigfile.txt"));
    assert_eq!(path::strip_prefix(&p, "D:/project").as_deref(), Some("bigfile.txt"));
    // The name of the skeleton is the same in either form, but for the base name.
    let digest = |p: &str| derive_skeleton_path("", p)[".tsk/skeletons/".len()..][..40].to_string();
    assert_eq!(digest("D:\\project\\bigfile.txt"), digest(&p));
}
