//! PreCompact snapshot + the SessionStart resume injection it feeds.
//!
//! Everything here reads the transcript and never calls a model: whatever cannot be
//! understood leaves an empty field and the hook keeps going (fail-open).

use vstd::prelude::*;

use crate::config::{standard_limits, Limits};
use crate::json;
use crate::json::{field, inner, items_of, quoted, string, trees, Json, Tree};
use crate::number;
use crate::number::{decimal_of, tokens};
use crate::path;
use crate::tally;
use crate::text;
use crate::text::{byte_count, first_chars, holds, joined, lowered, texts, trimmed};

verus! {

/// What a snapshot carries. Ordered by priority: P1 role, P2 decisions,
/// P3 skills, P4 intent. P1 is never truncated.
#[derive(Debug, PartialEq)]
pub struct Snapshot {
    pub v: u32,
    pub session: String,
    pub role: String,
    pub decisions: Vec<String>,
    pub skills: Vec<String>,
    pub intent: String,
}

/// What a snapshot says, with strings as texts.
pub struct Notes {
    pub v: u32,
    pub session: Seq<char>,
    pub role: Seq<char>,
    pub decisions: Seq<Seq<char>>,
    pub skills: Seq<Seq<char>>,
    pub intent: Seq<char>,
}

impl Snapshot {
    /// What the snapshot says.
    pub open spec fn notes(self) -> Notes {
        Notes {
            v: self.v,
            session: self.session@,
            role: self.role@,
            decisions: texts(self.decisions@),
            skills: texts(self.skills@),
            intent: self.intent@,
        }
    }
}

/// The documents among the lines; a line that is none is skipped.
pub open spec fn documents(lines: Seq<Seq<char>>) -> Seq<Tree>
    decreases lines.len(),
{
    if lines.len() == 0 {
        Seq::empty()
    } else {
        match json::parsed(lines.last()) {
            Ok(t) => documents(lines.drop_last()).push(t),
            Err(_) => documents(lines.drop_last()),
        }
    }
}

/// Reads a transcript: one document a line, lines that are none skipped.
pub fn read_documents(transcript: &str) -> (r: Vec<Json>)
    ensures
        trees(r@) == documents(text::lines_of(transcript@)),
{
    let lines = text::lines(transcript);
    let mut out: Vec<Json> = Vec::new();
    let mut i: usize = 0;
    let ghost all = texts(lines@);
    while i < lines.len()
        invariant
            i <= lines@.len(),
            all == texts(lines@),
            trees(out@) == documents(all.take(i as int)),
        decreases lines@.len() - i,
    {
        proof {
            assert(all.take(i + 1).drop_last() =~= all.take(i as int));
            assert(all.take(i + 1).last() == lines@[i as int]@);
        }
        if let Ok(d) = json::parse(lines[i].as_str()) {
            let ghost done = out@;
            out.push(d);
            assert(out@.drop_last() =~= done);
        }
        i = i + 1;
    }
    assert(all.take(i as int) =~= all);
    out
}

/// The first text among blocks of a message that no tool result holds.
pub open spec fn first_text(blocks: Seq<Tree>) -> Option<Seq<char>>
    decreases blocks.len(),
{
    if blocks.len() == 0 {
        None
    } else if string(field(blocks[0], "type"@)) != Some("tool_result"@) && string(
        field(blocks[0], "text"@),
    ) is Some {
        string(field(blocks[0], "text"@))
    } else {
        first_text(blocks.skip(1))
    }
}

/// What the user wrote in a record: the message itself, or the first text in it.
pub open spec fn user_words(r: Tree) -> Option<Seq<char>> {
    match inner(r, "message"@, "content"@) {
        Some(Tree::Text(s)) => Some(s),
        Some(Tree::List(blocks)) => first_text(blocks),
        _ => None,
    }
}

/// What the user wrote in a record.
pub fn user_text(r: &Json) -> (s: Option<String>)
    ensures
        text::content(s) == user_words(r.tree()),
{
    match r.get_inner("message", "content") {
        Some(Json::Text(s)) => Some(text::copy(s.as_str())),
        Some(Json::List(blocks)) => {
            let ghost all = trees(blocks@);
            proof {
                json::lemma_trees(blocks@);
                assert(all.skip(0) =~= all);
            }
            let mut i: usize = 0;
            while i < blocks.len()
                invariant
                    i <= blocks@.len(),
                    all.len() == blocks@.len(),
                    forall|k: int| 0 <= k < all.len() ==> #[trigger] all[k] == blocks@[k].tree(),
                    first_text(all.skip(i as int)) == first_text(all),
                    user_words(r.tree()) == first_text(all),
                decreases blocks@.len() - i,
            {
                let b = &blocks[i];
                proof {
                    assert(all.skip(i as int)[0] == all[i as int]);
                    assert(all.skip(i as int).skip(1) =~= all.skip(i + 1));
                }
                if !json::is_text(b.get("type"), "tool_result") {
                    if let Some(s) = json::as_text(b.get("text")) {
                        return Some(text::copy(s));
                    }
                }
                i = i + 1;
            }
            None
        },
        _ => None,
    }
}

/// The texts of the text blocks.
pub open spec fn text_blocks(blocks: Seq<Tree>) -> Seq<Seq<char>>
    decreases blocks.len(),
{
    if blocks.len() == 0 {
        Seq::empty()
    } else {
        let before = text_blocks(blocks.drop_last());
        let b = blocks.last();
        if string(field(b, "type"@)) == Some("text"@) && string(field(b, "text"@)) is Some {
            before.push(string(field(b, "text"@))->0)
        } else {
            before
        }
    }
}

/// What the assistant wrote in a record: its text blocks, one under the other.
pub open spec fn assistant_words(r: Tree) -> Seq<char> {
    joined(text_blocks(items_of(inner(r, "message"@, "content"@))), "\n"@)
}

/// What the assistant wrote in a record.
pub fn assistant_text(r: &Json) -> (s: String)
    ensures
        s@ == assistant_words(r.tree()),
{
    let mut parts: Vec<String> = Vec::new();
    let ghost all = items_of(inner(r.tree(), "message"@, "content"@));
    if let Some(Json::List(blocks)) = r.get_inner("message", "content") {
        proof {
            json::lemma_trees(blocks@);
            assert(all == trees(blocks@));
        }
        let mut i: usize = 0;
        while i < blocks.len()
            invariant
                i <= blocks@.len(),
                all.len() == blocks@.len(),
                forall|k: int| 0 <= k < all.len() ==> #[trigger] all[k] == blocks@[k].tree(),
                texts(parts@) == text_blocks(all.take(i as int)),
            decreases blocks@.len() - i,
        {
            let b = &blocks[i];
            proof {
                assert(all.take(i + 1).drop_last() =~= all.take(i as int));
                assert(all.take(i + 1).last() == all[i as int]);
            }
            if json::is_text(b.get("type"), "text") {
                if let Some(s) = json::as_text(b.get("text")) {
                    let t = text::copy(s);
                    proof {
                        text::lemma_texts_push(parts@, t);
                    }
                    parts.push(t);
                }
            }
            i = i + 1;
        }
        assert(all.take(i as int) =~= all);
    } else {
        assert(all =~= Seq::empty());
        assert(texts(parts@) =~= text_blocks(all));
    }
    text::join(&parts, "\n")
}

/// The language word for a file extension; empty where there is none.
pub open spec fn lang_of(ext: Seq<char>) -> Seq<char> {
    if ext == "rs"@ {
        "rust"@
    } else if ext == "py"@ {
        "python"@
    } else if ext == "js"@ || ext == "jsx"@ || ext == "mjs"@ {
        "javascript"@
    } else if ext == "ts"@ || ext == "tsx"@ {
        "typescript"@
    } else if ext == "go"@ {
        "go"@
    } else if ext == "sh"@ || ext == "bash"@ || ext == "zsh"@ {
        "shell"@
    } else if ext == "toml"@ || ext == "ini"@ {
        "config"@
    } else if ext == "md"@ {
        "markdown"@
    } else if ext == "json"@ {
        "json"@
    } else if ext == "yaml"@ || ext == "yml"@ {
        "yaml"@
    } else if ext == "html"@ || ext == "css"@ {
        "web"@
    } else {
        ""@
    }
}

/// The language word for a file extension; empty where there is none.
pub fn ext_to_lang(ext: &str) -> (r: &'static str)
    ensures
        r@ == lang_of(ext@),
{
    if text::same(ext, "rs") {
        "rust"
    } else if text::same(ext, "py") {
        "python"
    } else if text::same(ext, "js") || text::same(ext, "jsx") || text::same(ext, "mjs") {
        "javascript"
    } else if text::same(ext, "ts") || text::same(ext, "tsx") {
        "typescript"
    } else if text::same(ext, "go") {
        "go"
    } else if text::same(ext, "sh") || text::same(ext, "bash") || text::same(ext, "zsh") {
        "shell"
    } else if text::same(ext, "toml") || text::same(ext, "ini") {
        "config"
    } else if text::same(ext, "md") {
        "markdown"
    } else if text::same(ext, "json") {
        "json"
    } else if text::same(ext, "yaml") || text::same(ext, "yml") {
        "yaml"
    } else if text::same(ext, "html") || text::same(ext, "css") {
        "web"
    } else {
        ""
    }
}

/// `v` with `l` behind it, unless `l` is empty or stands in it already.
pub open spec fn with_lang(v: Seq<Seq<char>>, l: Seq<char>) -> Seq<Seq<char>> {
    if l.len() > 0 && !v.contains(l) {
        v.push(l)
    } else {
        v
    }
}

/// Puts `l` behind `v`, unless it is empty or stands in it already.
pub fn push_lang(v: &mut Vec<String>, l: &str)
    ensures
        texts(final(v)@) == with_lang(texts(old(v)@), l@),
{
    if !l.is_empty() && !text::member(v, l) {
        let s = text::copy(l);
        proof {
            text::lemma_texts_push(v@, s);
        }
        v.push(s);
    }
}

/// The skills that one block of a message adds: the name of the tool it uses, and the
/// language of the file it touches.
pub open spec fn with_block(skills: Seq<Seq<char>>, b: Tree) -> Seq<Seq<char>> {
    let name = string(field(b, "name"@));
    if string(field(b, "type"@)) == Some("tool_use"@) && name is Some {
        let named = skills.push(name->0);
        match string(inner(b, "input"@, "file_path"@)) {
            Some(p) => match path::extension_of(p) {
                Some(e) => with_lang(named, lang_of(e)),
                None => named,
            },
            None => named,
        }
    } else {
        skills
    }
}

/// The skills that the blocks add, one after the other.
pub open spec fn with_blocks(skills: Seq<Seq<char>>, blocks: Seq<Tree>) -> Seq<Seq<char>>
    decreases blocks.len(),
{
    if blocks.len() == 0 {
        skills
    } else {
        with_block(with_blocks(skills, blocks.drop_last()), blocks.last())
    }
}

/// Tool names actually used + a language word inferred from paths touched.
pub fn collect_skills(r: &Json, skills: &mut Vec<String>)
    ensures
        texts(final(skills)@) == with_blocks(
            texts(old(skills)@),
            items_of(inner(r.tree(), "message"@, "content"@)),
        ),
{
    let ghost all = items_of(inner(r.tree(), "message"@, "content"@));
    let ghost first = texts(skills@);
    if let Some(Json::List(blocks)) = r.get_inner("message", "content") {
        proof {
            json::lemma_trees(blocks@);
            assert(all == trees(blocks@));
        }
        let mut i: usize = 0;
        while i < blocks.len()
            invariant
                i <= blocks@.len(),
                all.len() == blocks@.len(),
                forall|k: int| 0 <= k < all.len() ==> #[trigger] all[k] == blocks@[k].tree(),
                texts(skills@) == with_blocks(first, all.take(i as int)),
            decreases blocks@.len() - i,
        {
            let b = &blocks[i];
            proof {
                assert(all.take(i + 1).drop_last() =~= all.take(i as int));
                assert(all.take(i + 1).last() == all[i as int]);
            }
            if json::is_text(b.get("type"), "tool_use") {
                if let Some(n) = json::as_text(b.get("name")) {
                    let s = text::copy(n);
                    proof {
                        text::lemma_texts_push(skills@, s);
                    }
                    skills.push(s);
                    if let Some(p) = json::as_text(b.get_inner("input", "file_path")) {
                        if let Some(e) = path::extension(p) {
                            push_lang(skills, ext_to_lang(e.as_str()));
                        }
                    }
                }
            }
            i = i + 1;
        }
        assert(all.take(i as int) =~= all);
    } else {
        assert(all =~= Seq::empty());
    }
}

/// The items without repetitions, each where it first stands.
pub open spec fn deduped(v: Seq<Seq<char>>) -> Seq<Seq<char>>
    decreases v.len(),
{
    if v.len() == 0 {
        Seq::empty()
    } else {
        let before = deduped(v.drop_last());
        if before.contains(v.last()) {
            before
        } else {
            before.push(v.last())
        }
    }
}

/// The items without repetitions, each where it first stands.
pub fn dedup(v: &Vec<String>) -> (r: Vec<String>)
    ensures
        texts(r@) == deduped(texts(v@)),
{
    let mut out: Vec<String> = Vec::new();
    let mut i: usize = 0;
    let ghost all = texts(v@);
    while i < v.len()
        invariant
            i <= v@.len(),
            all == texts(v@),
            texts(out@) == deduped(all.take(i as int)),
        decreases v@.len() - i,
    {
        proof {
            assert(all.take(i + 1).drop_last() =~= all.take(i as int));
            assert(all.take(i + 1).last() == v@[i as int]@);
        }
        if !text::member(&out, v[i].as_str()) {
            let s = text::copy(v[i].as_str());
            proof {
                text::lemma_texts_push(out@, s);
            }
            out.push(s);
        }
        i = i + 1;
    }
    assert(all.take(i as int) =~= all);
    out
}

/// The last `n` items, in original order.
pub open spec fn last_items(v: Seq<Seq<char>>, n: nat) -> Seq<Seq<char>> {
    if v.len() <= n {
        v
    } else {
        v.skip(v.len() - n)
    }
}

/// The last `n` items, in original order.
pub fn last_n(v: &Vec<String>, n: usize) -> (r: Vec<String>)
    ensures
        texts(r@) == last_items(texts(v@), n as nat),
{
    let len = v.len();
    let from = if len <= n {
        0
    } else {
        len - n
    };
    assert(texts(v@).len() == v@.len());
    let r = text::copy_range(v, from, len);
    assert(texts(r@) =~= last_items(texts(v@), n as nat));
    r
}

/// Does `l` begin with `word`, and go on with a colon or white space?
pub open spec fn introduces(l: Seq<char>, word: Seq<char>) -> bool {
    text::begins(l, word) && l.len() > word.len() && (l[word.len() as int] == ':' || text::white(
        l[word.len() as int],
    ))
}

fn is_introduced(l: &str, word: &str) -> (b: bool)
    ensures
        b == introduces(l@, word@),
{
    let v = text::chars(l);
    let n = text::chars(word).len();
    text::starts_with(l, word) && v.len() > n && (v[n] == ':' || text::is_white(v[n]))
}

/// Is a line decision-shaped? It is announced as a decision, or says what was chosen.
pub open spec fn decision_shaped(t: Seq<char>) -> bool {
    let l = lowered(t);
    ||| introduces(l, "decision"@)
    ||| introduces(l, "决定"@)
    ||| text::begins(l, "决定："@)
    ||| holds(l, "we will use"@)
    ||| holds(l, "we will write"@)
    ||| holds(l, "chosen"@)
    ||| holds(l, "采用"@)
    ||| holds(l, "选定"@)
}

fn is_decision(t: &str) -> (b: bool)
    ensures
        b == decision_shaped(t@),
{
    let lower = t.to_lowercase();
    let l = lower.as_str();
    is_introduced(l, "decision") || is_introduced(l, "决定") || text::starts_with(l, "决定：")
        || text::contains(l, "we will use") || text::contains(l, "we will write")
        || text::contains(l, "chosen") || text::contains(l, "采用") || text::contains(l, "选定")
}

/// How much of a decision or an intent is kept.
pub const LINE_CHARS: usize = 200;

/// The decisions with one line more, where it is one and not yet among them.
pub open spec fn noted(out: Seq<Seq<char>>, line: Seq<char>) -> Seq<Seq<char>> {
    let t = trimmed(line);
    let s = first_chars(t, LINE_CHARS as nat);
    if t.len() > 0 && decision_shaped(t) && !out.contains(s) {
        out.push(s)
    } else {
        out
    }
}

/// The decisions with the lines of one message more, the last line first.
pub open spec fn noted_lines(out: Seq<Seq<char>>, lines: Seq<Seq<char>>) -> Seq<Seq<char>>
    decreases lines.len(),
{
    if lines.len() == 0 {
        out
    } else {
        noted_lines(noted(out, lines.last()), lines.drop_last())
    }
}

/// The decisions with those of the messages more, the last message first.
pub open spec fn noted_messages(out: Seq<Seq<char>>, msgs: Seq<Seq<char>>) -> Seq<Seq<char>>
    decreases msgs.len(),
{
    if msgs.len() == 0 {
        out
    } else {
        noted_messages(noted_lines(out, text::lines_of(msgs.last())), msgs.drop_last())
    }
}

/// Decision-shaped lines in the assistant's own text, most recent first.
pub open spec fn decisions_of(msgs: Seq<Seq<char>>, lim: Limits) -> Seq<Seq<char>> {
    let all = noted_messages(Seq::empty(), msgs);
    if all.len() <= lim.inject_p2_n {
        all
    } else {
        all.take(lim.inject_p2_n as int)
    }
}

fn note_lines(out: &mut Vec<String>, msg: &str)
    ensures
        texts(final(out)@) == noted_lines(texts(old(out)@), text::lines_of(msg@)),
{
    let lines = text::lines(msg);
    let ghost all = texts(lines@);
    let ghost want = noted_lines(texts(out@), all);
    let mut i: usize = lines.len();
    assert(all.take(i as int) =~= all);
    while i > 0
        invariant
            i <= lines@.len(),
            all == texts(lines@),
            noted_lines(texts(out@), all.take(i as int)) == want,
        decreases i,
    {
        proof {
            assert(all.take(i as int).drop_last() =~= all.take(i - 1));
            assert(all.take(i as int).last() == lines@[i - 1]@);
        }
        let t = text::trim(lines[i - 1].as_str());
        if !t.as_str().is_empty() && is_decision(t.as_str()) {
            let s = text::take_chars(t.as_str(), LINE_CHARS);
            if !text::member(out, s.as_str()) {
                proof {
                    text::lemma_texts_push(out@, s);
                }
                out.push(s);
            }
        }
        i = i - 1;
    }
}

/// Decision-shaped lines in the assistant's own text, most recent first, 200 chars each.
pub fn decisions(assistants: &Vec<String>, limits: &Limits) -> (r: Vec<String>)
    ensures
        texts(r@) == decisions_of(texts(assistants@), *limits),
{
    let mut out: Vec<String> = Vec::new();
    let ghost all = texts(assistants@);
    let mut i: usize = assistants.len();
    proof {
        assert(all.take(i as int) =~= all);
        assert(texts(out@) =~= Seq::empty());
    }
    while i > 0
        invariant
            i <= assistants@.len(),
            all == texts(assistants@),
            noted_messages(texts(out@), all.take(i as int)) == noted_messages(Seq::empty(), all),
        decreases i,
    {
        proof {
            assert(all.take(i as int).drop_last() =~= all.take(i - 1));
            assert(all.take(i as int).last() == assistants@[i - 1]@);
        }
        note_lines(&mut out, assistants[i - 1].as_str());
        i = i - 1;
    }
    assert(texts(out@).len() == out@.len());
    let n = out.len();
    if n <= limits.inject_p2_n {
        out
    } else {
        let r = text::copy_range(&out, 0, limits.inject_p2_n);
        assert(texts(r@) =~= texts(out@).take(limits.inject_p2_n as int));
        r
    }
}

/// The path that a block of a message touches: the file that a tool call names.
pub open spec fn block_path(b: Tree) -> Option<Seq<char>> {
    if typed(b, "tool_use"@) {
        string(inner(b, "input"@, "file_path"@))
    } else {
        None
    }
}

/// The paths with one more, where there is one.
pub open spec fn with_path(paths: Seq<Seq<char>>, p: Option<Seq<char>>) -> Seq<Seq<char>> {
    match p {
        Some(x) => paths.push(x),
        None => paths,
    }
}

/// The paths with those that the blocks of a message touch more.
pub open spec fn with_block_paths(paths: Seq<Seq<char>>, blocks: Seq<Tree>) -> Seq<Seq<char>>
    decreases blocks.len(),
{
    if blocks.len() == 0 {
        paths
    } else {
        with_path(with_block_paths(paths, blocks.drop_last()), block_path(blocks.last()))
    }
}

/// The paths that a session touches, one by one: those that a record names itself, and those
/// of the tool calls in its message.
pub open spec fn paths_in(recs: Seq<Tree>) -> Seq<Seq<char>>
    decreases recs.len(),
{
    if recs.len() == 0 {
        Seq::empty()
    } else {
        with_block_paths(
            with_path(
                paths_in(recs.drop_last()),
                string(inner(recs.last(), "tool_input"@, "file_path"@)),
            ),
            items_of(inner(recs.last(), "message"@, "content"@)),
        )
    }
}

/// How often each name occurs, in the order of the names.
pub open spec fn counted(names: Seq<Seq<char>>) -> Seq<(Seq<char>, nat)>
    decreases names.len(),
{
    if names.len() == 0 {
        Seq::empty()
    } else {
        tally::bumped(counted(names.drop_last()), names.last(), 1)
    }
}

/// How often each path was touched, in the order of the paths.
pub open spec fn touched(recs: Seq<Tree>) -> Seq<(Seq<char>, nat)> {
    counted(paths_in(recs))
}

/// How many paths stand for a session whose first message says too little.
pub const PATHS_SHOWN: usize = 6;

/// The paths touched most often, the most frequent first.
pub open spec fn most_touched(table: Seq<(Seq<char>, nat)>) -> Seq<Seq<char>> {
    let keys = Seq::new(table.len(), |i: int| table[i].1 as u64);
    let order = tally::ranked(keys, table.len());
    Seq::new(
        if table.len() <= PATHS_SHOWN {
            table.len()
        } else {
            PATHS_SHOWN as nat
        },
        |i: int| table[order[i]].0,
    )
}

/// A first message shorter than this says too little.
pub const ROLE_MIN_BYTES: usize = 20;

/// The task of a session: its first message, truncated, or, when that is too thin, the paths
/// most frequently touched.
pub open spec fn role_of(users: Seq<Seq<char>>, recs: Seq<Tree>, lim: Limits) -> Seq<char> {
    let table = touched(recs);
    if users.len() > 0 && byte_count(
        trimmed(first_chars(users[0], lim.inject_p1_max_chars as nat)),
    ) >= ROLE_MIN_BYTES {
        first_chars(users[0], lim.inject_p1_max_chars as nat)
    } else if table.len() == 0 {
        Seq::empty()
    } else {
        "Working on: "@ + joined(most_touched(table), ", "@)
    }
}

proof fn lemma_counted_total(names: Seq<Seq<char>>)
    ensures
        tally::total(counted(names)) == names.len(),
    decreases names.len(),
{
    if names.len() > 0 {
        lemma_counted_total(names.drop_last());
        tally::lemma_bumped_total(counted(names.drop_last()), names.last(), 1);
    }
}

fn push_path(paths: &mut Vec<String>, p: Option<&str>)
    ensures
        texts(final(paths)@) == with_path(texts(old(paths)@), json::shown(p)),
{
    if let Some(t) = p {
        let s = text::copy(t);
        proof {
            text::lemma_texts_push(paths@, s);
        }
        paths.push(s);
    }
}

fn push_block_paths(paths: &mut Vec<String>, r: &Json)
    ensures
        texts(final(paths)@) == with_block_paths(
            texts(old(paths)@),
            items_of(inner(r.tree(), "message"@, "content"@)),
        ),
{
    if let Some(Json::List(blocks)) = r.get_inner("message", "content") {
        let ghost first = texts(paths@);
        let ghost all = trees(blocks@);
        proof {
            json::lemma_trees(blocks@);
        }
        let mut i: usize = 0;
        while i < blocks.len()
            invariant
                i <= blocks@.len(),
                all.len() == blocks@.len(),
                forall|k: int| 0 <= k < all.len() ==> #[trigger] all[k] == blocks@[k].tree(),
                texts(paths@) == with_block_paths(first, all.take(i as int)),
            decreases blocks@.len() - i,
        {
            proof {
                assert(all.take(i + 1).drop_last() =~= all.take(i as int));
                assert(all.take(i + 1).last() == all[i as int]);
            }
            let b = &blocks[i];
            if json::is_text(b.get("type"), "tool_use") {
                push_path(paths, json::as_text(b.get_inner("input", "file_path")));
            }
            i = i + 1;
        }
        assert(all.take(i as int) =~= all);
    }
}

fn collect_paths(recs: &Vec<Json>) -> (r: Vec<String>)
    ensures
        texts(r@) == paths_in(trees(recs@)),
{
    let mut paths: Vec<String> = Vec::new();
    let ghost all = trees(recs@);
    proof {
        json::lemma_trees(recs@);
        assert(texts(paths@) =~= Seq::empty());
    }
    let mut i: usize = 0;
    while i < recs.len()
        invariant
            i <= recs.len(),
            all.len() == recs@.len(),
            forall|k: int| 0 <= k < all.len() ==> #[trigger] all[k] == recs@[k].tree(),
            texts(paths@) == paths_in(all.take(i as int)),
        decreases recs@.len() - i,
    {
        proof {
            assert(all.take(i + 1).drop_last() =~= all.take(i as int));
            assert(all.take(i + 1).last() == all[i as int]);
        }
        push_path(&mut paths, json::as_text(recs[i].get_inner("tool_input", "file_path")));
        push_block_paths(&mut paths, &recs[i]);
        i = i + 1;
    }
    assert(all.take(i as int) =~= all);
    paths
}

fn count_paths(recs: &Vec<Json>) -> (r: Vec<(String, usize)>)
    ensures
        tally::rows(r@) == touched(trees(recs@)),
{
    let paths = collect_paths(recs);
    let mut counts: Vec<(String, usize)> = Vec::new();
    let ghost all = texts(paths@);
    assert(tally::rows(counts@) =~= Seq::empty());
    let mut i: usize = 0;
    while i < paths.len()
        invariant
            i <= paths.len(),
            all == texts(paths@),
            tally::rows(counts@) == counted(all.take(i as int)),
        decreases paths@.len() - i,
    {
        let p = paths[i].as_str();
        proof {
            assert(all.take(i + 1).drop_last() =~= all.take(i as int));
            assert(all.take(i + 1).last() == paths@[i as int]@);
            lemma_counted_total(all.take(i as int));
            tally::lemma_amount_within(tally::rows(counts@), p@);
        }
        tally::bump(&mut counts, p, 1);
        i = i + 1;
    }
    assert(all.take(i as int) =~= all);
    counts
}

/// First user message, truncated, or, when it is too thin, the paths most
/// frequently touched in the session.
pub fn first_user_or_paths(users: &Vec<String>, recs: &Vec<Json>, limits: &Limits) -> (r: String)
    ensures
        r@ == role_of(texts(users@), trees(recs@), *limits),
{
    assert(texts(users@).len() == users@.len());
    if users.len() > 0 {
        assert(texts(users@)[0] == users@[0]@);
        let s = text::take_chars(users[0].as_str(), limits.inject_p1_max_chars);
        if text::byte_len(text::trim(s.as_str()).as_str()) >= ROLE_MIN_BYTES {
            return s;
        }
    }
    let counts = count_paths(recs);
    let ghost table = tally::rows(counts@);
    assert(table.len() == counts@.len());
    if counts.len() == 0 {
        return String::new();
    }
    let mut keys: Vec<u64> = Vec::new();
    let mut i: usize = 0;
    while i < counts.len()
        invariant
            i <= counts@.len(),
            table == tally::rows(counts@),
            keys@.len() == i,
            forall|k: int| 0 <= k < i ==> #[trigger] keys@[k] == table[k].1 as u64,
        decreases counts@.len() - i,
    {
        assert(table[i as int].1 == counts@[i as int].1 as nat);
        keys.push(counts[i].1 as u64);
        i = i + 1;
    }
    assert(keys@ =~= Seq::new(table.len(), |i: int| table[i].1 as u64));
    let order = tally::rank(&keys);
    let n = if counts.len() <= PATHS_SHOWN {
        counts.len()
    } else {
        PATHS_SHOWN
    };
    let ghost want = most_touched(table);
    let mut paths: Vec<String> = Vec::new();
    let mut j: usize = 0;
    while j < n
        invariant
            j <= n <= order@.len(),
            n == want.len(),
            order@.len() == counts@.len(),
            table == tally::rows(counts@),
            keys@ == Seq::new(table.len(), |i: int| table[i].1 as u64),
            keys@.len() == counts@.len(),
            tally::indices(order@) == tally::ranked(keys@, keys@.len()),
            forall|k: int| 0 <= k < order@.len() ==> #[trigger] order@[k] < counts@.len(),
            want == most_touched(table),
            paths@.len() == j,
            forall|k: int| 0 <= k < j ==> (#[trigger] paths@[k])@ == want[k],
        decreases n - j,
    {
        let at: usize = order[j];
        assert(tally::indices(order@)[j as int] == at);
        assert(table[at as int].0 == counts@[at as int].0@);
        paths.push(text::copy(counts[at].0.as_str()));
        j = j + 1;
    }
    assert(texts(paths@) =~= want);
    let mut s = text::copy("Working on: ");
    s.append(text::join(&paths, ", ").as_str());
    s
}

/// Is a record of the given type?
pub open spec fn typed(r: Tree, t: Seq<char>) -> bool {
    string(field(r, "type"@)) == Some(t)
}

/// What the user wrote, message by message.
pub open spec fn users_of(recs: Seq<Tree>) -> Seq<Seq<char>>
    decreases recs.len(),
{
    if recs.len() == 0 {
        Seq::empty()
    } else {
        let before = users_of(recs.drop_last());
        if typed(recs.last(), "user"@) && user_words(recs.last()) is Some {
            before.push(user_words(recs.last())->0)
        } else {
            before
        }
    }
}

/// What the assistant wrote, message by message; messages without text are left out.
pub open spec fn assistants_of(recs: Seq<Tree>) -> Seq<Seq<char>>
    decreases recs.len(),
{
    if recs.len() == 0 {
        Seq::empty()
    } else {
        let before = assistants_of(recs.drop_last());
        if typed(recs.last(), "assistant"@) && assistant_words(recs.last()).len() > 0 {
            before.push(assistant_words(recs.last()))
        } else {
            before
        }
    }
}

/// The skills that the assistant showed, in the order in which it did.
pub open spec fn skills_of(recs: Seq<Tree>) -> Seq<Seq<char>>
    decreases recs.len(),
{
    if recs.len() == 0 {
        Seq::empty()
    } else {
        let before = skills_of(recs.drop_last());
        if typed(recs.last(), "assistant"@) {
            with_blocks(before, items_of(inner(recs.last(), "message"@, "content"@)))
        } else {
            before
        }
    }
}

/// What a snapshot of a transcript says.
pub open spec fn notes_of(transcript: Seq<char>, session: Seq<char>, lim: Limits) -> Notes {
    let recs = documents(text::lines_of(transcript));
    let users = users_of(recs);
    Notes {
        v: 1,
        session,
        role: role_of(users, recs, lim),
        decisions: decisions_of(assistants_of(recs), lim),
        skills: last_items(deduped(skills_of(recs)), lim.inject_p3_n as nat),
        intent: if users.len() == 0 {
            Seq::empty()
        } else {
            first_chars(users.last(), LINE_CHARS as nat)
        },
    }
}

proof fn lemma_user_not_assistant(r: Tree)
    ensures
        !(typed(r, "user"@) && typed(r, "assistant"@)),
{
    reveal_strlit("user");
    reveal_strlit("assistant");
    assert("user"@.len() == 4);
    assert("assistant"@.len() == 9);
}

/// Read the transcript JSONL and extract role / decisions / skills / intent.
pub fn build(transcript: &str, session: &str, limits: &Limits) -> (r: Snapshot)
    ensures
        r.notes() == notes_of(transcript@, session@, *limits),
{
    let recs = read_documents(transcript);
    let ghost all = trees(recs@);
    let mut users: Vec<String> = Vec::new();
    let mut assistants: Vec<String> = Vec::new();
    let mut skills: Vec<String> = Vec::new();
    proof {
        json::lemma_trees(recs@);
        assert(texts(users@) =~= Seq::empty());
        assert(texts(assistants@) =~= Seq::empty());
        assert(texts(skills@) =~= Seq::empty());
    }
    let mut i: usize = 0;
    while i < recs.len()
        invariant
            i <= recs@.len(),
            all.len() == recs@.len(),
            forall|k: int| 0 <= k < all.len() ==> #[trigger] all[k] == recs@[k].tree(),
            texts(users@) == users_of(all.take(i as int)),
            texts(assistants@) == assistants_of(all.take(i as int)),
            texts(skills@) == skills_of(all.take(i as int)),
        decreases recs@.len() - i,
    {
        let r = &recs[i];
        proof {
            assert(all.take(i + 1).drop_last() =~= all.take(i as int));
            assert(all.take(i + 1).last() == all[i as int]);
            lemma_user_not_assistant(all[i as int]);
        }
        if json::is_text(r.get("type"), "user") {
            if let Some(t) = user_text(r) {
                proof {
                    text::lemma_texts_push(users@, t);
                }
                users.push(t);
            }
        } else if json::is_text(r.get("type"), "assistant") {
            let txt = assistant_text(r);
            collect_skills(r, &mut skills);
            if !txt.as_str().is_empty() {
                proof {
                    text::lemma_texts_push(assistants@, txt);
                }
                assistants.push(txt);
            }
        }
        i = i + 1;
    }
    assert(all.take(i as int) =~= all);
    let role = first_user_or_paths(&users, &recs, limits);
    let decisions = decisions(&assistants, limits);
    assert(texts(users@).len() == users@.len());
    let n = users.len();
    let intent = if n == 0 {
        String::new()
    } else {
        assert(texts(users@).last() == users@[n - 1]@);
        text::take_chars(users[n - 1].as_str(), LINE_CHARS)
    };
    let skills = last_n(&dedup(&skills), limits.inject_p3_n);
    let r = Snapshot { v: 1, session: text::copy(session), role, decisions, skills, intent };
    assert(r.intent@ =~= notes_of(transcript@, session@, *limits).intent);
    r
}

/// Texts as a JSON list of strings.
pub open spec fn list_text(items: Seq<Seq<char>>) -> Seq<char> {
    "["@ + joined(items.map_values(|s: Seq<char>| quoted(s)), ","@) + "]"@
}

/// The snapshot as it stands on disk: one JSON object, the fields in a fixed order.
pub open spec fn snapshot_text(n: Notes) -> Seq<char> {
    "{\"v\":"@ + decimal_of(n.v as nat) + ",\"session\":"@ + quoted(n.session) + ",\"role\":"@
        + quoted(n.role) + ",\"decisions\":"@ + list_text(n.decisions) + ",\"skills\":"@
        + list_text(n.skills) + ",\"intent\":"@ + quoted(n.intent) + "}"@
}

fn list(items: &Vec<String>) -> (r: String)
    ensures
        r@ == list_text(texts(items@)),
{
    let mut parts: Vec<String> = Vec::new();
    let ghost want = texts(items@).map_values(|s: Seq<char>| quoted(s));
    let mut i: usize = 0;
    while i < items.len()
        invariant
            i <= items@.len(),
            want == texts(items@).map_values(|s: Seq<char>| quoted(s)),
            parts@.len() == i,
            forall|k: int| 0 <= k < i ==> (#[trigger] parts@[k])@ == want[k],
        decreases items@.len() - i,
    {
        assert(want[i as int] == quoted(items@[i as int]@));
        parts.push(json::quote(items[i].as_str()));
        i = i + 1;
    }
    assert(texts(parts@) =~= want);
    let mut s = text::copy("[");
    s.append(text::join(&parts, ",").as_str());
    s.append("]");
    s
}

/// The snapshot as it stands on disk.
pub fn to_text(snap: &Snapshot) -> (r: String)
    ensures
        r@ == snapshot_text(snap.notes()),
{
    let mut s = text::copy("{\"v\":");
    s.append(number::decimal(snap.v as u64).as_str());
    s.append(",\"session\":");
    s.append(json::quote(snap.session.as_str()).as_str());
    s.append(",\"role\":");
    s.append(json::quote(snap.role.as_str()).as_str());
    s.append(",\"decisions\":");
    s.append(list(&snap.decisions).as_str());
    s.append(",\"skills\":");
    s.append(list(&snap.skills).as_str());
    s.append(",\"intent\":");
    s.append(json::quote(snap.intent.as_str()).as_str());
    s.append("}");
    s
}

/// How many steps of dropping a snapshot has left.
pub open spec fn droppable(n: Notes) -> nat {
    (if n.intent.len() > 0 {
        1nat
    } else {
        0nat
    }) + n.skills.len() + n.decisions.len()
}

/// The snapshot cut down to its size on disk, in priority order: the intent, then the skills,
/// the oldest first, then the decisions, the oldest first.
pub open spec fn shrunk(n: Notes, lim: Limits) -> Notes
    decreases droppable(n),
{
    if byte_count(snapshot_text(n)) <= lim.snapshot_max || droppable(n) == 0 {
        n
    } else if n.intent.len() > 0 {
        shrunk(Notes { intent: Seq::empty(), ..n }, lim)
    } else if n.skills.len() > 0 {
        shrunk(Notes { skills: n.skills.drop_first(), ..n }, lim)
    } else {
        shrunk(Notes { decisions: n.decisions.drop_last(), ..n }, lim)
    }
}

/// What goes to disk: the snapshot, capped at its maximum size. Dropping happens in
/// priority order P4, P3, P2 (same order as the assembler).
pub fn write_snapshot(snap: &Snapshot, limits: &Limits) -> (r: String)
    ensures
        r@ == snapshot_text(shrunk(snap.notes(), *limits)),
{
    let ghost want = shrunk(snap.notes(), *limits);
    let mut s = Snapshot {
        v: snap.v,
        session: text::copy(snap.session.as_str()),
        role: text::copy(snap.role.as_str()),
        decisions: text::copy_range(&snap.decisions, 0, snap.decisions.len()),
        skills: text::copy_range(&snap.skills, 0, snap.skills.len()),
        intent: text::copy(snap.intent.as_str()),
    };
    proof {
        assert(texts(s.decisions@) =~= texts(snap.decisions@));
        assert(texts(s.skills@) =~= texts(snap.skills@));
        assert(s.notes() == snap.notes());
    }
    let mut out = to_text(&s);
    while text::byte_len(out.as_str()) > limits.snapshot_max && !(s.intent.as_str().is_empty()
        && s.skills.len() == 0 && s.decisions.len() == 0)
        invariant
            shrunk(s.notes(), *limits) == want,
            out@ == snapshot_text(s.notes()),
        decreases droppable(s.notes()),
    {
        let ghost n = s.notes();
        assert(n.skills.len() == s.skills@.len() && n.decisions.len() == s.decisions@.len());
        if !s.intent.as_str().is_empty() {
            s.intent = String::new();
            assert(s.notes().intent =~= Seq::empty());
        } else if s.skills.len() > 0 {
            let k = s.skills.len();
            s.skills = text::copy_range(&s.skills, 1, k);
            assert(s.notes().skills =~= n.skills.drop_first());
        } else {
            let k = s.decisions.len();
            s.decisions = text::copy_range(&s.decisions, 0, k - 1);
            assert(s.notes().decisions =~= n.decisions.drop_last());
        }
        out = to_text(&s);
    }
    out
}

/// A snapshot on disk keeps its role whole. It takes no more than the maximum size, or only
/// the role is left. What has a higher priority goes only after all below it has gone, and
/// of each kind the oldest goes first.
pub proof fn lemma_shrunk(n: Notes, lim: Limits)
    ensures
        shrunk(n, lim).v == n.v,
        shrunk(n, lim).session == n.session,
        shrunk(n, lim).role == n.role,
        byte_count(snapshot_text(shrunk(n, lim))) <= lim.snapshot_max || droppable(shrunk(n, lim)) == 0,
        shrunk(n, lim).intent == n.intent || shrunk(n, lim).intent.len() == 0,
        shrunk(n, lim).skills.len() <= n.skills.len(),
        shrunk(n, lim).skills == n.skills.skip(n.skills.len() - shrunk(n, lim).skills.len()),
        shrunk(n, lim).decisions.len() <= n.decisions.len(),
        shrunk(n, lim).decisions == n.decisions.take(shrunk(n, lim).decisions.len() as int),
        shrunk(n, lim).skills.len() < n.skills.len() ==> shrunk(n, lim).intent.len() == 0,
        shrunk(n, lim).decisions.len() < n.decisions.len() ==> shrunk(n, lim).intent.len() == 0 && shrunk(
            n,
            lim,
        ).skills.len() == 0,
    decreases droppable(n),
{
    assert(n.skills.skip(0) =~= n.skills);
    assert(n.decisions.take(n.decisions.len() as int) =~= n.decisions);
    if byte_count(snapshot_text(n)) <= lim.snapshot_max || droppable(n) == 0 {
    } else if n.intent.len() > 0 {
        lemma_shrunk(Notes { intent: Seq::empty(), ..n }, lim);
    } else if n.skills.len() > 0 {
        let m = Notes { skills: n.skills.drop_first(), ..n };
        lemma_shrunk(m, lim);
        assert(m.skills.skip(m.skills.len() - shrunk(n, lim).skills.len()) =~= n.skills.skip(
            n.skills.len() - shrunk(n, lim).skills.len(),
        ));
    } else {
        let m = Notes { decisions: n.decisions.drop_last(), ..n };
        lemma_shrunk(m, lim);
        assert(m.decisions.take(shrunk(n, lim).decisions.len() as int) =~= n.decisions.take(
            shrunk(n, lim).decisions.len() as int,
        ));
    }
}

/// The parts of a resume injection that can be dropped.
pub struct Parts {
    pub decisions: Seq<Seq<char>>,
    pub skills: Seq<Seq<char>>,
    pub intent: Seq<char>,
}

/// Estimated tokens of a text.
pub open spec fn cost(s: Seq<char>) -> nat {
    tokens(byte_count(s))
}

/// Estimated tokens of a resume injection.
pub open spec fn load(role: Seq<char>, p: Parts) -> nat {
    cost(role) + cost(joined(p.decisions, " | "@)) + cost(joined(p.skills, " | "@)) + cost(p.intent)
}

/// How many decisions stay at most once the budget is exceeded.
pub const DECISIONS_OVER_BUDGET: usize = 3;

/// Over budget, keep only the 3 most recent decisions.
pub open spec fn fallen_back(role: Seq<char>, p: Parts, budget: nat) -> Parts {
    if load(role, p) > budget && p.decisions.len() > DECISIONS_OVER_BUDGET {
        Parts { decisions: p.decisions.take(DECISIONS_OVER_BUDGET as int), ..p }
    } else {
        p
    }
}

/// The parts cut down to the budget: the intent first, then the skills one at a time, the
/// oldest first, then the decisions, the oldest first. One skill and one decision stay.
pub open spec fn cut_down(role: Seq<char>, p: Parts, budget: nat) -> Parts
    decreases p.skills.len() + p.decisions.len() + p.intent.len(),
{
    if load(role, p) <= budget {
        p
    } else if p.intent.len() > 0 {
        cut_down(role, Parts { intent: Seq::empty(), ..p }, budget)
    } else if p.skills.len() > 1 {
        cut_down(role, Parts { skills: p.skills.drop_first(), ..p }, budget)
    } else if p.decisions.len() > 1 {
        cut_down(role, Parts { decisions: p.decisions.drop_last(), ..p }, budget)
    } else {
        p
    }
}

/// The role as it is injected.
pub open spec fn injected_role(n: Notes, lim: Limits) -> Seq<char> {
    first_chars(n.role, lim.inject_p1_max_chars as nat)
}

/// The parts from which an injection starts.
pub open spec fn all_parts(n: Notes, lim: Limits) -> Parts {
    Parts {
        decisions: last_items(n.decisions, lim.inject_p2_n as nat),
        skills: last_items(deduped(n.skills), lim.inject_p3_n as nat),
        intent: n.intent,
    }
}

/// The parts that an injection keeps.
pub open spec fn kept_parts(n: Notes, budget: nat, lim: Limits) -> Parts {
    let role = injected_role(n, lim);
    cut_down(role, fallen_back(role, all_parts(n, lim), budget), budget)
}

/// The resume injection.
pub open spec fn assembled(n: Notes, budget: nat, lim: Limits) -> Seq<char> {
    let p = kept_parts(n, budget, lim);
    "ROLE: "@ + injected_role(n, lim) + "\nDECISIONS: "@ + joined(p.decisions, " | "@) + "\nSKILLS: "@
        + joined(p.skills, " | "@) + "\nINTENT: "@ + p.intent
}

/// Assemble the resume injection: the five most recent decisions fall back to three, then
/// a hard truncation pass brings the rest under the budget.
pub fn assemble(snap: &Snapshot) -> (r: String)
    ensures
        r@ == assembled(
            snap.notes(),
            standard_limits().inject_budget as nat,
            standard_limits(),
        ),
{
    let limits = Limits::standard();
    assemble_with(snap, limits.inject_budget, &limits)
}

fn is_over(role: &str, dec: &Vec<String>, skl: &Vec<String>, intent: &str, budget: usize) -> (b: bool)
    ensures
        b == (load(
            role@,
            (Parts { decisions: texts(dec@), skills: texts(skl@), intent: intent@ }),
        ) > budget),
{
    let a: u128 = crate::est_tokens(role) as u128;
    let b: u128 = crate::est_tokens(text::join(dec, " | ").as_str()) as u128;
    let c: u128 = crate::est_tokens(text::join(skl, " | ").as_str()) as u128;
    let d: u128 = crate::est_tokens(intent) as u128;
    a + b + c + d > budget as u128
}

/// The assembly loop with an injectable budget, within the limits of the run.
pub fn assemble_with(snap: &Snapshot, budget: usize, limits: &Limits) -> (r: String)
    ensures
        r@ == assembled(snap.notes(), budget as nat, *limits),
{
    let ghost n = snap.notes();
    let p1 = text::take_chars(snap.role.as_str(), limits.inject_p1_max_chars);
    let mut dec = last_n(&snap.decisions, limits.inject_p2_n);
    let mut skl = last_n(&dedup(&snap.skills), limits.inject_p3_n);
    let mut p4 = text::copy(snap.intent.as_str());
    let ghost want = kept_parts(n, budget as nat, *limits);
    let ghost first = all_parts(n, *limits);
    assert(first == Parts { decisions: texts(dec@), skills: texts(skl@), intent: p4@ });
    assert(texts(dec@).len() == dec@.len());
    if dec.len() > DECISIONS_OVER_BUDGET && is_over(p1.as_str(), &dec, &skl, p4.as_str(), budget) {
        dec = text::copy_range(&dec, 0, DECISIONS_OVER_BUDGET);
        assert(texts(dec@) =~= first.decisions.take(DECISIONS_OVER_BUDGET as int));
    }
    while is_over(p1.as_str(), &dec, &skl, p4.as_str(), budget)
        invariant_except_break
            cut_down(
                p1@,
                (Parts { decisions: texts(dec@), skills: texts(skl@), intent: p4@ }),
                budget as nat,
            ) == want,
        ensures
            want == (Parts { decisions: texts(dec@), skills: texts(skl@), intent: p4@ }),
        decreases dec@.len() + skl@.len() + p4@.len(),
    {
        let ghost p = Parts { decisions: texts(dec@), skills: texts(skl@), intent: p4@ };
        assert(p.skills.len() == skl@.len() && p.decisions.len() == dec@.len());
        let k = skl.len();
        let d = dec.len();
        if !p4.as_str().is_empty() {
            p4 = String::new();
            assert(p4@ =~= Seq::empty());
        } else if k > 1 {
            skl = text::copy_range(&skl, 1, k);
            assert(texts(skl@).len() == skl@.len());
            assert(texts(skl@) =~= p.skills.drop_first());
        } else if d > 1 {
            dec = text::copy_range(&dec, 0, d - 1);
            assert(texts(dec@).len() == dec@.len());
            assert(texts(dec@) =~= p.decisions.drop_last());
        } else {
            break ;
        }
    }
    let mut s = text::copy("ROLE: ");
    s.append(p1.as_str());
    s.append("\nDECISIONS: ");
    s.append(text::join(&dec, " | ").as_str());
    s.append("\nSKILLS: ");
    s.append(text::join(&skl, " | ").as_str());
    s.append("\nINTENT: ");
    s.append(p4.as_str());
    s
}

proof fn lemma_cut_down(role: Seq<char>, p: Parts, budget: nat)
    ensures
        load(role, cut_down(role, p, budget)) <= budget || (cut_down(role, p, budget).intent.len()
            == 0 && cut_down(role, p, budget).skills.len() <= 1 && cut_down(
            role,
            p,
            budget,
        ).decisions.len() <= 1),
        cut_down(role, p, budget).intent == p.intent || cut_down(role, p, budget).intent.len() == 0,
        cut_down(role, p, budget).skills.len() <= p.skills.len(),
        cut_down(role, p, budget).skills == p.skills.skip(
            p.skills.len() - cut_down(role, p, budget).skills.len(),
        ),
        cut_down(role, p, budget).decisions.len() <= p.decisions.len(),
        cut_down(role, p, budget).decisions == p.decisions.take(
            cut_down(role, p, budget).decisions.len() as int,
        ),
        cut_down(role, p, budget).skills.len() < p.skills.len() ==> cut_down(
            role,
            p,
            budget,
        ).intent.len() == 0 && cut_down(role, p, budget).skills.len() >= 1,
        cut_down(role, p, budget).decisions.len() < p.decisions.len() ==> cut_down(
            role,
            p,
            budget,
        ).intent.len() == 0 && cut_down(role, p, budget).skills.len() <= 1 && cut_down(
            role,
            p,
            budget,
        ).decisions.len() >= 1,
    decreases p.skills.len() + p.decisions.len() + p.intent.len(),
{
    assert(p.skills.skip(0) =~= p.skills);
    assert(p.decisions.take(p.decisions.len() as int) =~= p.decisions);
    let c = cut_down(role, p, budget);
    if load(role, p) <= budget {
    } else if p.intent.len() > 0 {
        lemma_cut_down(role, Parts { intent: Seq::empty(), ..p }, budget);
    } else if p.skills.len() > 1 {
        let q = Parts { skills: p.skills.drop_first(), ..p };
        lemma_cut_down(role, q, budget);
        assert(q.skills.skip(q.skills.len() - c.skills.len()) =~= p.skills.skip(
            p.skills.len() - c.skills.len(),
        ));
    } else if p.decisions.len() > 1 {
        let q = Parts { decisions: p.decisions.drop_last(), ..p };
        lemma_cut_down(role, q, budget);
        assert(q.decisions.take(c.decisions.len() as int) =~= p.decisions.take(
            c.decisions.len() as int,
        ));
    }
}

/// A resume injection stays within the budget, or nothing is left to drop: no intent, at most
/// one skill and at most one decision. The role is never cut below its cap, and a part goes
/// only after those of lower priority.
pub proof fn lemma_budget(n: Notes, budget: nat, lim: Limits)
    ensures
        load(injected_role(n, lim), kept_parts(n, budget, lim)) <= budget || (kept_parts(
            n,
            budget,
            lim,
        ).intent.len() == 0 && kept_parts(n, budget, lim).skills.len() <= 1 && kept_parts(
            n,
            budget,
            lim,
        ).decisions.len() <= 1),
        kept_parts(n, budget, lim).intent == n.intent || kept_parts(n, budget, lim).intent.len() == 0,
        kept_parts(n, budget, lim).skills.len() < all_parts(n, lim).skills.len() ==> kept_parts(
            n,
            budget,
            lim,
        ).intent.len() == 0,
        kept_parts(n, budget, lim).decisions.len() < DECISIONS_OVER_BUDGET && kept_parts(
            n,
            budget,
            lim,
        ).decisions.len() < all_parts(n, lim).decisions.len() ==> kept_parts(n, budget, lim).intent.len()
            == 0 && kept_parts(n, budget, lim).skills.len() <= 1,
        load(injected_role(n, lim), all_parts(n, lim)) <= budget ==> kept_parts(n, budget, lim) == all_parts(n, lim),
{
    let role = injected_role(n, lim);
    lemma_cut_down(role, fallen_back(role, all_parts(n, lim), budget), budget);
}

/// Is every text in `v` at most `n` characters long, and none there twice?
pub open spec fn bounded(v: Seq<Seq<char>>, n: nat) -> bool {
    v.no_duplicates() && forall|i: int| 0 <= i < v.len() ==> (#[trigger] v[i]).len() <= n
}

proof fn lemma_noted_lines(out: Seq<Seq<char>>, lines: Seq<Seq<char>>)
    requires
        bounded(out, LINE_CHARS as nat),
    ensures
        bounded(noted_lines(out, lines), LINE_CHARS as nat),
    decreases lines.len(),
{
    if lines.len() > 0 {
        let after = noted(out, lines.last());
        if after != out {
            let s = after.last();
            assert(after == out.push(s));
            assert(s.len() <= LINE_CHARS);
            assert forall|i: int, j: int| 0 <= i < after.len() && 0 <= j < after.len() && i
                != j implies after[i] != after[j] by {
                if i == out.len() {
                    assert(out.contains(out[j]));
                } else if j == out.len() {
                    assert(out.contains(out[i]));
                }
            }
        }
        lemma_noted_lines(after, lines.drop_last());
    }
}

proof fn lemma_noted_messages(out: Seq<Seq<char>>, msgs: Seq<Seq<char>>)
    requires
        bounded(out, LINE_CHARS as nat),
    ensures
        bounded(noted_messages(out, msgs), LINE_CHARS as nat),
    decreases msgs.len(),
{
    if msgs.len() > 0 {
        lemma_noted_lines(out, text::lines_of(msgs.last()));
        lemma_noted_messages(noted_lines(out, text::lines_of(msgs.last())), msgs.drop_last());
    }
}

/// Dropping repetitions leaves each text once, and no other.
pub proof fn lemma_deduped(v: Seq<Seq<char>>)
    ensures
        deduped(v).no_duplicates(),
        forall|x: Seq<char>| #[trigger] v.contains(x) <==> deduped(v).contains(x),
    decreases v.len(),
{
    if v.len() > 0 {
        let front = v.drop_last();
        let before = deduped(front);
        let after = deduped(v);
        lemma_deduped(front);
        if !before.contains(v.last()) {
            assert(after == before.push(v.last()));
            assert forall|i: int, j: int| 0 <= i < after.len() && 0 <= j < after.len() && i
                != j implies after[i] != after[j] by {
                if i == before.len() {
                    assert(before.contains(before[j]));
                } else if j == before.len() {
                    assert(before.contains(before[i]));
                }
            }
        }
        assert forall|x: Seq<char>| #[trigger] v.contains(x) <==> after.contains(x) by {
            if v.contains(x) {
                let i = v.index_of(x);
                if i < front.len() {
                    assert(front[i] == x);
                    assert(front.contains(x));
                    let j = before.index_of(x);
                    assert(after[j] == x);
                } else if before.contains(v.last()) {
                    assert(x == v.last());
                } else {
                    assert(after[before.len() as int] == x);
                }
            }
            if after.contains(x) {
                let j = after.index_of(x);
                if j < before.len() {
                    assert(before[j] == x);
                    assert(before.contains(x));
                    assert(front.contains(x));
                    let i = front.index_of(x);
                    assert(v[i] == x);
                } else {
                    assert(v[v.len() - 1] == x);
                }
            }
        }
    }
}

/// A snapshot is small whatever the transcript: no more decisions and skills than the limits
/// say, none of either twice, and no decision and no intent above two hundred characters.
pub proof fn lemma_notes_bounded(transcript: Seq<char>, session: Seq<char>, lim: Limits)
    ensures
        notes_of(transcript, session, lim).decisions.len() <= lim.inject_p2_n,
        bounded(notes_of(transcript, session, lim).decisions, LINE_CHARS as nat),
        notes_of(transcript, session, lim).skills.len() <= lim.inject_p3_n,
        notes_of(transcript, session, lim).skills.no_duplicates(),
        notes_of(transcript, session, lim).intent.len() <= LINE_CHARS,
{
    let recs = documents(text::lines_of(transcript));
    let msgs = assistants_of(recs);
    let none = Seq::<Seq<char>>::empty();
    assert(bounded(none, LINE_CHARS as nat));
    lemma_noted_messages(none, msgs);
    let all = noted_messages(none, msgs);
    let d = decisions_of(msgs, lim);
    assert forall|i: int| 0 <= i < d.len() implies #[trigger] d[i] == all[i] by {}
    let whole = deduped(skills_of(recs));
    lemma_deduped(skills_of(recs));
    let k = last_items(whole, lim.inject_p3_n as nat);
    assert forall|i: int, j: int| 0 <= i < k.len() && 0 <= j < k.len() && i != j implies k[i]
        != k[j] by {
        let off = whole.len() - k.len();
        assert(k[i] == whole[i + off]);
        assert(k[j] == whole[j + off]);
    }
}

/// A line put at the end of a transcript adds the record that it holds, and nothing where it
/// holds none.
pub proof fn lemma_record_added(transcript: Seq<char>, line: Seq<char>)
    requires
        transcript.len() == 0 || transcript.last() == '\n',
        !line.contains('\n'),
        line.len() == 0 || line.last() != '\r',
    ensures
        json::parsed(line) matches Ok(r) ==> documents(
            text::lines_of(transcript + line + seq!['\n']),
        ) == documents(text::lines_of(transcript)).push(r),
        json::parsed(line) is Err ==> documents(text::lines_of(transcript + line + seq!['\n']))
            == documents(text::lines_of(transcript)),
{
    text::lemma_line_added(transcript, line);
    let before = text::lines_of(transcript);
    assert(before.push(line).drop_last() =~= before);
    assert(before.push(line).last() == line);
}

proof fn lemma_last_user(recs: Seq<Tree>, k: int)
    requires
        0 <= k < recs.len(),
        typed(recs[k], "user"@),
        user_words(recs[k]) is Some,
        forall|i: int|
            k < i < recs.len() ==> !typed(#[trigger] recs[i], "user"@) || user_words(recs[i]) is None,
    ensures
        users_of(recs).len() > 0,
        users_of(recs).last() == user_words(recs[k])->0,
    decreases recs.len(),
{
    if k < recs.len() - 1 {
        let front = recs.drop_last();
        assert(front[k] == recs[k]);
        assert forall|i: int| k < i < front.len() implies !typed(#[trigger] front[i], "user"@)
            || user_words(front[i]) is None by {
            assert(front[i] == recs[i]);
        }
        lemma_last_user(front, k);
        assert(!typed(recs[recs.len() - 1], "user"@) || user_words(recs[recs.len() - 1]) is None);
    }
}

/// The intent is what the user wrote last: where record `k` is of the user, with the words
/// `w`, and no later record of the user has words, the intent is the first two hundred
/// characters of `w`.
pub proof fn lemma_intent_is_last(
    transcript: Seq<char>,
    session: Seq<char>,
    lim: Limits,
    k: int,
    w: Seq<char>,
)
    requires
        ({
            let recs = documents(text::lines_of(transcript));
            &&& 0 <= k < recs.len()
            &&& string(field(recs[k], "type"@)) == Some("user"@)
            &&& user_words(recs[k]) == Some(w)
            &&& forall|i: int|
                k < i < recs.len() ==> string(field(#[trigger] recs[i], "type"@)) != Some("user"@)
                    || user_words(recs[i]) is None
        }),
    ensures
        w.len() <= 200 ==> notes_of(transcript, session, lim).intent == w,
        w.len() > 200 ==> notes_of(transcript, session, lim).intent == w.take(200),
{
    let recs = documents(text::lines_of(transcript));
    assert forall|i: int| k < i < recs.len() implies !typed(#[trigger] recs[i], "user"@)
        || user_words(recs[i]) is None by {
        assert(string(field(recs[i], "type"@)) != Some("user"@) || user_words(recs[i]) is None);
    }
    lemma_last_user(recs, k);
}

/// A message of the user at the end of a transcript, whatever stands before it, is the
/// intent, cut to two hundred characters.
pub proof fn lemma_intent_added(
    transcript: Seq<char>,
    line: Seq<char>,
    r: Tree,
    w: Seq<char>,
    session: Seq<char>,
    lim: Limits,
)
    requires
        transcript.len() == 0 || transcript.last() == '\n',
        !line.contains('\n'),
        line.len() == 0 || line.last() != '\r',
        json::parsed(line) == Ok::<Tree, Seq<char>>(r),
        string(field(r, "type"@)) == Some("user"@),
        inner(r, "message"@, "content"@) == Some(Tree::Text(w)),
    ensures
        w.len() <= 200 ==> notes_of(transcript + line + seq!['\n'], session, lim).intent == w,
        w.len() > 200 ==> notes_of(transcript + line + seq!['\n'], session, lim).intent == w.take(
            200,
        ),
{
    lemma_record_added(transcript, line);
    let before = documents(text::lines_of(transcript));
    let recs = before.push(r);
    assert(recs[recs.len() - 1] == r);
    lemma_intent_is_last(
        transcript + line + seq!['\n'],
        session,
        lim,
        recs.len() - 1,
        w,
    );
}

/// Any other record leaves the intent as it is, and a transcript without one has none.
pub proof fn lemma_intent_kept(
    transcript: Seq<char>,
    line: Seq<char>,
    r: Tree,
    session: Seq<char>,
    lim: Limits,
)
    requires
        transcript.len() == 0 || transcript.last() == '\n',
        !line.contains('\n'),
        line.len() == 0 || line.last() != '\r',
        json::parsed(line) == Ok::<Tree, Seq<char>>(r),
        string(field(r, "type"@)) != Some("user"@),
    ensures
        notes_of(transcript + line + seq!['\n'], session, lim).intent == notes_of(
            transcript,
            session,
            lim,
        ).intent,
        transcript.len() == 0 ==> notes_of(transcript, session, lim).intent.len() == 0,
{
    lemma_record_added(transcript, line);
    let before = documents(text::lines_of(transcript));
    assert(before.push(r).drop_last() =~= before);
    if transcript.len() == 0 {
        assert(transcript =~= Seq::empty());
        text::lemma_pieces_plain(transcript, '\n');
        assert(text::lines_of(transcript) =~= Seq::empty());
    }
}

proof fn lemma_first_user(recs: Seq<Tree>, k: int)
    requires
        0 <= k < recs.len(),
        typed(recs[k], "user"@),
        user_words(recs[k]) is Some,
        forall|i: int|
            0 <= i < k ==> !typed(#[trigger] recs[i], "user"@) || user_words(recs[i]) is None,
    ensures
        users_of(recs).len() > 0,
        users_of(recs)[0] == user_words(recs[k])->0,
    decreases recs.len(),
{
    let front = recs.drop_last();
    if k < recs.len() - 1 {
        assert(front[k] == recs[k]);
        assert forall|i: int| 0 <= i < k implies !typed(#[trigger] front[i], "user"@)
            || user_words(front[i]) is None by {
            assert(front[i] == recs[i]);
        }
        lemma_first_user(front, k);
    } else {
        assert forall|i: int| 0 <= i < front.len() implies !typed(#[trigger] front[i], "user"@)
            || user_words(front[i]) is None by {
            assert(front[i] == recs[i]);
        }
        lemma_no_user(front);
    }
}

proof fn lemma_no_user(recs: Seq<Tree>)
    requires
        forall|i: int|
            0 <= i < recs.len() ==> !typed(#[trigger] recs[i], "user"@) || user_words(recs[i]) is None,
    ensures
        users_of(recs).len() == 0,
    decreases recs.len(),
{
    if recs.len() > 0 {
        let front = recs.drop_last();
        assert forall|i: int| 0 <= i < front.len() implies !typed(#[trigger] front[i], "user"@)
            || user_words(front[i]) is None by {
            assert(front[i] == recs[i]);
        }
        lemma_no_user(front);
        assert(!typed(recs[recs.len() - 1], "user"@) || user_words(recs[recs.len() - 1]) is None);
    }
}

/// The role is what the user wrote first, cut to the limit, where that says enough: the
/// first record of the user with words decides, whatever comes later.
pub proof fn lemma_role_is_first(
    transcript: Seq<char>,
    session: Seq<char>,
    lim: Limits,
    k: int,
    w: Seq<char>,
)
    requires
        ({
            let recs = documents(text::lines_of(transcript));
            &&& 0 <= k < recs.len()
            &&& string(field(recs[k], "type"@)) == Some("user"@)
            &&& user_words(recs[k]) == Some(w)
            &&& forall|i: int|
                0 <= i < k ==> string(field(#[trigger] recs[i], "type"@)) != Some("user"@)
                    || user_words(recs[i]) is None
        }),
    ensures
        w.len() <= lim.inject_p1_max_chars && byte_count(trimmed(w)) >= 20 ==> notes_of(
            transcript,
            session,
            lim,
        ).role == w,
        w.len() > lim.inject_p1_max_chars && byte_count(
            trimmed(w.take(lim.inject_p1_max_chars as int)),
        ) >= 20 ==> notes_of(transcript, session, lim).role == w.take(
            lim.inject_p1_max_chars as int,
        ),
{
    let recs = documents(text::lines_of(transcript));
    assert forall|i: int| 0 <= i < k implies !typed(#[trigger] recs[i], "user"@) || user_words(
        recs[i],
    ) is None by {
        assert(string(field(recs[i], "type"@)) != Some("user"@) || user_words(recs[i]) is None);
    }
    lemma_first_user(recs, k);
}

proof fn lemma_first_text(blocks: Seq<Tree>, j: int)
    requires
        0 <= j < blocks.len(),
        string(field(blocks[j], "type"@)) != Some("tool_result"@),
        string(field(blocks[j], "text"@)) is Some,
        forall|i: int|
            0 <= i < j ==> string(field(#[trigger] blocks[i], "type"@)) == Some("tool_result"@)
                || string(field(blocks[i], "text"@)) is None,
    ensures
        first_text(blocks) == string(field(blocks[j], "text"@)),
    decreases blocks.len(),
{
    if j > 0 {
        let rest = blocks.skip(1);
        assert(rest[j - 1] == blocks[j]);
        assert forall|i: int| 0 <= i < j - 1 implies string(field(#[trigger] rest[i], "type"@))
            == Some("tool_result"@) || string(field(rest[i], "text"@)) is None by {
            assert(rest[i] == blocks[i + 1]);
        }
        assert(string(field(blocks[0], "type"@)) == Some("tool_result"@) || string(
            field(blocks[0], "text"@),
        ) is None);
        lemma_first_text(rest, j - 1);
    }
}

proof fn lemma_no_text(blocks: Seq<Tree>)
    requires
        forall|i: int|
            0 <= i < blocks.len() ==> string(field(#[trigger] blocks[i], "type"@)) == Some(
                "tool_result"@,
            ) || string(field(blocks[i], "text"@)) is None,
    ensures
        first_text(blocks) is None,
    decreases blocks.len(),
{
    if blocks.len() > 0 {
        let rest = blocks.skip(1);
        assert forall|i: int| 0 <= i < rest.len() implies string(field(#[trigger] rest[i], "type"@))
            == Some("tool_result"@) || string(field(rest[i], "text"@)) is None by {
            assert(rest[i] == blocks[i + 1]);
        }
        assert(string(field(blocks[0], "type"@)) == Some("tool_result"@) || string(
            field(blocks[0], "text"@),
        ) is None);
        lemma_no_text(rest);
    }
}

/// What the user wrote is the message where it is a text, and in a list of blocks the first
/// text that is no result of a tool; where there is none, the user wrote nothing.
pub proof fn lemma_user_words(r: Tree, w: Seq<char>, blocks: Seq<Tree>, j: int)
    ensures
        inner(r, "message"@, "content"@) == Some(Tree::Text(w)) ==> user_words(r) == Some(w),
        inner(r, "message"@, "content"@) == Some(Tree::List(blocks)) && 0 <= j < blocks.len()
            && field(blocks[j], "text"@) == Some(Tree::Text(w)) && string(
            field(blocks[j], "type"@),
        ) != Some("tool_result"@) && (forall|i: int|
            0 <= i < j ==> string(field(#[trigger] blocks[i], "type"@)) == Some("tool_result"@)
                || string(field(blocks[i], "text"@)) is None) ==> user_words(r) == Some(w),
        inner(r, "message"@, "content"@) == Some(Tree::List(blocks)) && (forall|i: int|
            0 <= i < blocks.len() ==> string(field(#[trigger] blocks[i], "type"@)) == Some(
                "tool_result"@,
            ) || string(field(blocks[i], "text"@)) is None) ==> user_words(r) is None,
        inner(r, "message"@, "content"@) is None ==> user_words(r) is None,
{
    if inner(r, "message"@, "content"@) == Some(Tree::List(blocks)) {
        if 0 <= j < blocks.len() && field(blocks[j], "text"@) == Some(Tree::Text(w)) && string(
            field(blocks[j], "type"@),
        ) != Some("tool_result"@) && (forall|i: int|
            0 <= i < j ==> string(field(#[trigger] blocks[i], "type"@)) == Some("tool_result"@)
                || string(field(blocks[i], "text"@)) is None) {
            lemma_first_text(blocks, j);
        }
        if forall|i: int|
            0 <= i < blocks.len() ==> string(field(#[trigger] blocks[i], "type"@)) == Some(
                "tool_result"@,
            ) || string(field(blocks[i], "text"@)) is None {
            lemma_no_text(blocks);
        }
    }
}

/// What the assistant wrote are its text blocks, each under the one before; blocks of other
/// kinds say nothing.
pub proof fn lemma_assistant_words(a: Tree, b: Tree, blocks: Seq<Tree>, block: Tree, t: Seq<char>)
    requires
        inner(a, "message"@, "content"@) == Some(Tree::List(blocks)),
        inner(b, "message"@, "content"@) == Some(Tree::List(blocks.push(block))),
    ensures
        string(field(block, "type"@)) != Some("text"@) ==> assistant_words(b) == assistant_words(a),
        string(field(block, "type"@)) == Some("text"@) && field(block, "text"@) == Some(
            Tree::Text(t),
        ) && (forall|i: int|
            0 <= i < blocks.len() ==> string(field(#[trigger] blocks[i], "type"@)) != Some("text"@))
            ==> assistant_words(b) == t,
        string(field(block, "type"@)) == Some("text"@) && field(block, "text"@) == Some(
            Tree::Text(t),
        ) && assistant_words(a).len() > 0 ==> assistant_words(b) == assistant_words(a) + "\n"@ + t,
{
    assert(blocks.push(block).drop_last() =~= blocks);
    let x = text_blocks(blocks);
    let y = text_blocks(blocks.push(block));
    if string(field(block, "type"@)) == Some("text"@) && field(block, "text"@) == Some(
        Tree::Text(t),
    ) {
        assert(y == x.push(t));
        assert(y.drop_last() =~= x);
        if forall|i: int|
            0 <= i < blocks.len() ==> string(field(#[trigger] blocks[i], "type"@)) != Some(
                "text"@,
            ) {
            lemma_no_text_blocks(blocks);
        }
    }
}

proof fn lemma_no_text_blocks(blocks: Seq<Tree>)
    requires
        forall|i: int|
            0 <= i < blocks.len() ==> string(field(#[trigger] blocks[i], "type"@)) != Some("text"@),
    ensures
        text_blocks(blocks).len() == 0,
    decreases blocks.len(),
{
    if blocks.len() > 0 {
        let front = blocks.drop_last();
        assert forall|i: int| 0 <= i < front.len() implies string(
            field(#[trigger] front[i], "type"@),
        ) != Some("text"@) by {
            assert(front[i] == blocks[i]);
        }
        assert(string(field(blocks[blocks.len() - 1], "type"@)) != Some("text"@));
        lemma_no_text_blocks(front);
    }
}

/// A record of the assistant adds what it wrote to the messages, one of another kind nothing.
pub proof fn lemma_messages_added(recs: Seq<Tree>, r: Tree)
    ensures
        string(field(r, "type"@)) == Some("assistant"@) && assistant_words(r).len() > 0
            ==> assistants_of(recs.push(r)) == assistants_of(recs).push(assistant_words(r)),
        string(field(r, "type"@)) != Some("assistant"@) || assistant_words(r).len() == 0
            ==> assistants_of(recs.push(r)) == assistants_of(recs),
        string(field(r, "type"@)) != Some("assistant"@) ==> skills_of(recs.push(r)) == skills_of(
            recs,
        ),
{
    assert(recs.push(r).drop_last() =~= recs);
}

/// A tool that the assistant uses is a skill, by its name; so is the language of the file that
/// it touches, once. A record that uses none adds none.
pub proof fn lemma_skills_added(recs: Seq<Tree>, r: Tree, b: Tree, name: Seq<char>)
    requires
        string(field(r, "type"@)) == Some("assistant"@),
        inner(r, "message"@, "content"@) == Some(Tree::List(seq![b])),
    ensures
        string(field(b, "type"@)) != Some("tool_use"@) ==> skills_of(recs.push(r)) == skills_of(
            recs,
        ),
        string(field(b, "type"@)) == Some("tool_use"@) && field(b, "name"@) == Some(
            Tree::Text(name),
        ) ==> {
            let after = skills_of(recs.push(r));
            let before = skills_of(recs).push(name);
            &&& inner(b, "input"@, "file_path"@) is None ==> after == before
            &&& inner(b, "input"@, "file_path"@) matches Some(Tree::Text(p)) ==> (
            path::extension_of(p) matches Some(e) ==> if lang_of(e).len() == 0 || before.contains(
                lang_of(e),
            ) {
                after == before
            } else {
                after == before.push(lang_of(e))
            })
        },
{
    assert(recs.push(r).drop_last() =~= recs);
    let one = seq![b];
    assert(one.drop_last() =~= Seq::empty());
    assert(one.last() == b);
    reveal_with_fuel(with_blocks, 2);
}

/// The blocks of a record add their skills one after the other.
pub proof fn lemma_blocks_in_turn(skills: Seq<Seq<char>>, a: Seq<Tree>, b: Seq<Tree>)
    ensures
        with_blocks(skills, a + b) == with_blocks(with_blocks(skills, a), b),
    decreases b.len(),
{
    if b.len() == 0 {
        assert(a + b =~= a);
    } else {
        lemma_blocks_in_turn(skills, a, b.drop_last());
        assert((a + b).drop_last() =~= a + b.drop_last());
        assert((a + b).last() == b.last());
    }
}

/// A snapshot keeps the skills that came up last: one that was never used before is the last
/// of them, and the oldest gives way where there are too many; one used before changes
/// nothing.
pub proof fn lemma_skill_kept(v: Seq<Seq<char>>, x: Seq<char>, n: nat)
    ensures
        v.contains(x) ==> last_items(deduped(v.push(x)), n) == last_items(deduped(v), n),
        !v.contains(x) && n > 0 ==> {
            let old = last_items(deduped(v), n);
            let new = last_items(deduped(v.push(x)), n);
            &&& new.len() > 0
            &&& new.last() == x
            &&& old.len() < n ==> new == old.push(x)
            &&& old.len() == n ==> new == old.drop_first().push(x)
        },
{
    assert(v.push(x).drop_last() =~= v);
    lemma_deduped(v);
    let d = deduped(v);
    if !v.contains(x) && n > 0 {
        let old = last_items(d, n);
        let new = last_items(deduped(v.push(x)), n);
        assert(deduped(v.push(x)) == d.push(x));
        if d.len() < n {
            assert(new =~= old.push(x));
        } else {
            assert(new =~= old.drop_first().push(x));
        }
    }
}

/// A tool used for the first time is the last skill of the snapshot; one used before, or a
/// record that uses none, leaves the skills as they were.
pub proof fn lemma_tool_is_skill(
    transcript: Seq<char>,
    line: Seq<char>,
    r: Tree,
    b: Tree,
    name: Seq<char>,
    session: Seq<char>,
    lim: Limits,
)
    requires
        transcript.len() == 0 || transcript.last() == '\n',
        !line.contains('\n'),
        line.len() == 0 || line.last() != '\r',
        json::parsed(line) == Ok::<Tree, Seq<char>>(r),
        string(field(r, "type"@)) == Some("assistant"@),
        inner(r, "message"@, "content"@) == Some(Tree::List(seq![b])),
        string(field(b, "type"@)) == Some("tool_use"@),
        field(b, "name"@) == Some(Tree::Text(name)),
        inner(b, "input"@, "file_path"@) is None,
        lim.inject_p3_n > 0,
    ensures
        ({
            let used = skills_of(documents(text::lines_of(transcript)));
            let old = notes_of(transcript, session, lim).skills;
            let new = notes_of(transcript + line + seq!['\n'], session, lim).skills;
            &&& used.contains(name) ==> new == old
            &&& !used.contains(name) && old.len() < lim.inject_p3_n ==> new == old.push(name)
            &&& !used.contains(name) && old.len() == lim.inject_p3_n ==> new == old.drop_first().push(
                name,
            )
        }),
{
    lemma_record_added(transcript, line);
    let recs = documents(text::lines_of(transcript));
    lemma_skills_added(recs, r, b, name);
    lemma_skill_kept(skills_of(recs), name, lim.inject_p3_n as nat);
}

/// Is the line, once trimmed, a decision, and `d` what is kept of it?
pub open spec fn decides(line: Seq<char>, d: Seq<char>) -> bool {
    let t = trimmed(line);
    &&& t.len() > 0
    &&& decision_shaped(t)
    &&& d == (if t.len() <= 200 {
        t
    } else {
        t.take(200)
    })
}

/// Does a line of one of the messages decide `d`?
pub open spec fn decided(msgs: Seq<Seq<char>>, d: Seq<char>) -> bool {
    exists|m: int, l: int|
        #![trigger text::lines_of(msgs[m])[l]]
        0 <= m < msgs.len() && 0 <= l < text::lines_of(msgs[m]).len() && decides(
            text::lines_of(msgs[m])[l],
            d,
        )
}

proof fn lemma_noted_grow(out: Seq<Seq<char>>, lines: Seq<Seq<char>>)
    ensures
        noted_lines(out, lines).len() >= out.len(),
        noted_lines(out, lines).take(out.len() as int) == out,
        forall|l: int, d: Seq<char>|
            0 <= l < lines.len() && decides(#[trigger] lines[l], d) ==> #[trigger] noted_lines(
                out,
                lines,
            ).contains(d),
        forall|i: int|
            out.len() <= i < noted_lines(out, lines).len() ==> exists|l: int|
                0 <= l < lines.len() && decides(
                    #[trigger] lines[l],
                    #[trigger] noted_lines(out, lines)[i],
                ),
    decreases lines.len(),
{
    let all = noted_lines(out, lines);
    if lines.len() == 0 {
        assert(out.take(out.len() as int) =~= out);
    } else {
        let front = lines.drop_last();
        let after = noted(out, lines.last());
        lemma_noted_grow(after, front);
        assert(all.take(out.len() as int) =~= all.take(after.len() as int).take(out.len() as int));
        assert(after.take(out.len() as int) =~= out);
        assert forall|l: int, d: Seq<char>|
            0 <= l < lines.len() && decides(#[trigger] lines[l], d) implies #[trigger] all.contains(
            d,
        ) by {
            if l < front.len() {
                assert(decides(front[l], d));
            } else {
                assert(after.contains(d)) by {
                    if !out.contains(d) {
                        assert(after[out.len() as int] == d);
                    }
                }
                let k = after.index_of(d);
                assert(all.take(after.len() as int)[k] == all[k]);
            }
        }
        assert forall|i: int| out.len() <= i < all.len() implies exists|l: int|
            0 <= l < lines.len() && decides(#[trigger] lines[l], #[trigger] all[i]) by {
            if i >= after.len() {
                let l = choose|l: int| 0 <= l < front.len() && decides(#[trigger] front[l], all[i]);
                assert(decides(lines[l], all[i]));
            } else {
                assert(all.take(after.len() as int)[i] == all[i]);
                assert(decides(lines[lines.len() - 1], all[i]));
            }
        }
    }
}

proof fn lemma_noted_all(out: Seq<Seq<char>>, msgs: Seq<Seq<char>>)
    ensures
        noted_messages(out, msgs).len() >= out.len(),
        noted_messages(out, msgs).take(out.len() as int) == out,
        forall|d: Seq<char>| decided(msgs, d) ==> #[trigger] noted_messages(out, msgs).contains(d),
        forall|i: int|
            out.len() <= i < noted_messages(out, msgs).len() ==> decided(
                msgs,
                #[trigger] noted_messages(out, msgs)[i],
            ),
    decreases msgs.len(),
{
    let all = noted_messages(out, msgs);
    if msgs.len() == 0 {
        assert(out.take(out.len() as int) =~= out);
    } else {
        let front = msgs.drop_last();
        let lines = text::lines_of(msgs.last());
        let after = noted_lines(out, lines);
        lemma_noted_grow(out, lines);
        lemma_noted_all(after, front);
        assert(all.take(out.len() as int) =~= all.take(after.len() as int).take(out.len() as int));
        assert forall|d: Seq<char>| decided(msgs, d) implies #[trigger] all.contains(d) by {
            let (m, l) = choose|m: int, l: int|
                #![trigger text::lines_of(msgs[m])[l]]
                0 <= m < msgs.len() && 0 <= l < text::lines_of(msgs[m]).len() && decides(
                    text::lines_of(msgs[m])[l],
                    d,
                );
            if m < front.len() {
                assert(front[m] == msgs[m]);
                assert(decides(text::lines_of(front[m])[l], d));
                assert(decided(front, d));
            } else {
                assert(decides(lines[l], d));
                assert(after.contains(d));
                let k = after.index_of(d);
                assert(all.take(after.len() as int)[k] == all[k]);
            }
        }
        assert forall|i: int| out.len() <= i < all.len() implies decided(
            msgs,
            #[trigger] all[i],
        ) by {
            let d = all[i];
            if i >= after.len() {
                assert(decided(front, d));
                let (m, l) = choose|m: int, l: int|
                    #![trigger text::lines_of(front[m])[l]]
                    0 <= m < front.len() && 0 <= l < text::lines_of(front[m]).len() && decides(
                        text::lines_of(front[m])[l],
                        d,
                    );
                assert(front[m] == msgs[m]);
                assert(decides(text::lines_of(msgs[m])[l], d));
            } else {
                assert(all.take(after.len() as int)[i] == d);
                assert(after[i] == d);
                let l = choose|l: int| 0 <= l < lines.len() && decides(#[trigger] lines[l], after[i]);
                assert(decides(text::lines_of(msgs[msgs.len() - 1])[l], d));
            }
        }
    }
}

/// The decisions are lines of the assistant's messages that are shaped like one, trimmed and
/// cut to two hundred characters; where fewer are listed than the limit allows, none is
/// missing, and where one is missing the list is full.
pub proof fn lemma_decisions_complete(msgs: Seq<Seq<char>>, lim: Limits, d: Seq<char>)
    ensures
        decisions_of(msgs, lim).len() <= lim.inject_p2_n,
        decisions_of(msgs, lim).contains(d) ==> decided(msgs, d),
        decided(msgs, d) && !decisions_of(msgs, lim).contains(d) ==> decisions_of(msgs, lim).len()
            == lim.inject_p2_n,
{
    let none = Seq::<Seq<char>>::empty();
    let all = noted_messages(none, msgs);
    let shown = decisions_of(msgs, lim);
    lemma_noted_all(none, msgs);
    if shown.contains(d) {
        let i = shown.index_of(d);
        assert(all[i] == d);
    }
    if decided(msgs, d) && shown.len() < lim.inject_p2_n {
        assert(shown == all);
    }
}

/// The latest message comes first: its decisions head the list, and those of the messages
/// before it follow.
pub proof fn lemma_latest_first(msgs: Seq<Seq<char>>, m: Seq<char>, lim: Limits)
    ensures
        decisions_of(seq![m], lim).len() <= decisions_of(msgs.push(m), lim).len(),
        decisions_of(msgs.push(m), lim).take(decisions_of(seq![m], lim).len() as int)
            == decisions_of(seq![m], lim),
{
    let none = Seq::<Seq<char>>::empty();
    let own = noted_lines(none, text::lines_of(m));
    let all = msgs.push(m);
    assert(all.drop_last() =~= msgs);
    assert(all.last() == m);
    assert(seq![m].drop_last() =~= none);
    reveal_with_fuel(noted_messages, 2);
    assert(noted_messages(none, seq![m]) == own);
    lemma_noted_all(own, msgs);
    let whole = noted_messages(own, msgs);
    assert(noted_messages(none, all) == whole);
    let k = decisions_of(seq![m], lim).len() as int;
    assert(decisions_of(all, lim).take(k) =~= whole.take(own.len() as int).take(k));
    assert(own.take(k) =~= decisions_of(seq![m], lim));
}

/// Within a message the last line comes first: a decision at its end heads the list, and a
/// line that is none changes nothing.
#[verifier::spinoff_prover]
#[verifier::rlimit(30)]
pub proof fn lemma_last_line_first(msgs: Seq<Seq<char>>, m: Seq<char>, t: Seq<char>, lim: Limits)
    requires
        m.len() == 0 || m.last() == '\n',
        t.len() > 0,
        !t.contains('\n'),
    ensures
        decision_shaped(trimmed(t)) && trimmed(t).len() > 0 && lim.inject_p2_n > 0 ==> {
            &&& decisions_of(msgs.push(m + t), lim).len() > 0
            &&& decides(t, decisions_of(msgs.push(m + t), lim)[0])
        },
        !decision_shaped(trimmed(t)) || trimmed(t).len() == 0 ==> decisions_of(msgs.push(m + t), lim)
            == decisions_of(msgs.push(m), lim),
{
    let none = Seq::<Seq<char>>::empty();
    text::lemma_line_endings(m, t);
    let lines = text::lines_of(m);
    assert(lines.push(t).drop_last() =~= lines);
    let a = msgs.push(m + t);
    assert(a.drop_last() =~= msgs);
    assert(msgs.push(m).drop_last() =~= msgs);
    let first = noted(none, t);
    let own = noted_lines(first, lines);
    assert(noted_lines(none, text::lines_of(m + t)) == own);
    if decision_shaped(trimmed(t)) && trimmed(t).len() > 0 && lim.inject_p2_n > 0 {
        lemma_noted_grow(first, lines);
        lemma_noted_all(own, msgs);
        let whole = noted_messages(own, msgs);
        assert(first.len() == 1);
        assert(own.take(1)[0] == own[0]);
        assert(whole.take(own.len() as int)[0] == whole[0]);
        assert(decisions_of(a, lim)[0] == first[0]);
    }
}

/// A line is shaped like a decision where, whatever the case, it begins with the word and a
/// colon, or says what will be used or written or was chosen.
pub proof fn lemma_decision_shaped(t: Seq<char>, rest: Seq<char>)
    ensures
        lowered(t) == "decision"@ + ":"@ + rest ==> decision_shaped(t),
        lowered(t) == "决定"@ + ":"@ + rest ==> decision_shaped(t),
        lowered(t) == "决定："@ + rest ==> decision_shaped(t),
        holds(lowered(t), "we will use"@) ==> decision_shaped(t),
        holds(lowered(t), "we will write"@) ==> decision_shaped(t),
        holds(lowered(t), "chosen"@) ==> decision_shaped(t),
        holds(lowered(t), "采用"@) ==> decision_shaped(t),
        holds(lowered(t), "选定"@) ==> decision_shaped(t),
        decision_shaped(t) ==> lowered(t).len() > 0 && (text::begins(lowered(t), "decision"@)
            || text::begins(lowered(t), "决定"@) || text::begins(lowered(t), "决定："@) || holds(
            lowered(t),
            "we will use"@,
        ) || holds(lowered(t), "we will write"@) || holds(lowered(t), "chosen"@) || holds(
            lowered(t),
            "采用"@,
        ) || holds(lowered(t), "选定"@)),
{
    reveal_strlit(":");
    reveal_strlit("decision");
    reveal_strlit("决定");
    reveal_strlit("决定：");
    reveal_strlit("we will use");
    reveal_strlit("we will write");
    reveal_strlit("chosen");
    reveal_strlit("采用");
    reveal_strlit("选定");
    let l = lowered(t);
    if l == "decision"@ + ":"@ + rest {
        assert(l.subrange(0, 8) =~= "decision"@);
        assert(l[8] == ':');
    }
    if l == "决定"@ + ":"@ + rest {
        assert(l.subrange(0, 2) =~= "决定"@);
        assert(l[2] == ':');
    }
    if l == "决定："@ + rest {
        assert(l.subrange(0, 3) =~= "决定："@);
    }
}

/// A snapshot that fits is written as it is. What is dropped of one that does not had to be:
/// with the last thing that was dropped still in it, it would be too large.
#[verifier::spinoff_prover]
#[verifier::rlimit(30)]
pub proof fn lemma_shrunk_least(n: Notes, lim: Limits)
    ensures
        byte_count(snapshot_text(n)) <= lim.snapshot_max ==> shrunk(n, lim) == n,
        ({
            let r = shrunk(n, lim);
            let none = Seq::<char>::empty();
            if r.decisions.len() < n.decisions.len() {
                byte_count(
                    snapshot_text(
                        Notes {
                            decisions: n.decisions.take(r.decisions.len() as int + 1),
                            skills: Seq::empty(),
                            intent: none,
                            ..n
                        },
                    ),
                ) > lim.snapshot_max
            } else if r.skills.len() < n.skills.len() {
                byte_count(
                    snapshot_text(
                        Notes {
                            skills: n.skills.skip(n.skills.len() - r.skills.len() - 1),
                            intent: none,
                            ..n
                        },
                    ),
                ) > lim.snapshot_max
            } else if r.intent != n.intent {
                byte_count(snapshot_text(n)) > lim.snapshot_max
            } else {
                true
            }
        }),
    decreases droppable(n),
{
    let r = shrunk(n, lim);
    let none = Seq::<char>::empty();
    lemma_shrunk(n, lim);
    if byte_count(snapshot_text(n)) <= lim.snapshot_max || droppable(n) == 0 {
    } else if n.intent.len() > 0 {
        let m = Notes { intent: none, ..n };
        lemma_shrunk_least(m, lim);
        lemma_shrunk(m, lim);
    } else if n.skills.len() > 0 {
        let m = Notes { skills: n.skills.drop_first(), ..n };
        lemma_shrunk_least(m, lim);
        lemma_shrunk(m, lim);
        assert(n.intent =~= none);
        assert(n.skills.skip(0) =~= n.skills);
        if r.decisions.len() == n.decisions.len() {
            if r.skills.len() < m.skills.len() {
                assert(m.skills.skip(m.skills.len() - r.skills.len() - 1) =~= n.skills.skip(
                    n.skills.len() - r.skills.len() - 1,
                ));
                assert(m.intent =~= none);
            }
        }
    } else {
        let m = Notes { decisions: n.decisions.drop_last(), ..n };
        lemma_shrunk_least(m, lim);
        lemma_shrunk(m, lim);
        assert(n.intent =~= none);
        assert(n.skills =~= Seq::empty());
        assert(n.decisions.take(n.decisions.len() as int) =~= n.decisions);
        if r.decisions.len() < m.decisions.len() {
            assert(m.decisions.take(r.decisions.len() as int + 1) =~= n.decisions.take(
                r.decisions.len() as int + 1,
            ));
        }
    }
}

/// What is injected keeps to the budget and gives up no more than that takes: where the intent,
/// a skill or a decision is given up, the rest with it still there would be above the budget.
#[verifier::spinoff_prover]
#[verifier::rlimit(30)]
proof fn lemma_cut_least(role: Seq<char>, p: Parts, budget: nat)
    ensures
        ({
            let r = cut_down(role, p, budget);
            let none = Seq::<char>::empty();
            if r.decisions.len() < p.decisions.len() {
                load(
                    role,
                    (Parts {
                        decisions: p.decisions.take(r.decisions.len() as int + 1),
                        skills: r.skills,
                        intent: none,
                    }),
                ) > budget
            } else if r.skills.len() < p.skills.len() {
                load(
                    role,
                    (Parts {
                        decisions: p.decisions,
                        skills: p.skills.skip(p.skills.len() - r.skills.len() - 1),
                        intent: none,
                    }),
                ) > budget
            } else if r.intent != p.intent {
                load(role, p) > budget
            } else {
                true
            }
        }),
    decreases p.skills.len() + p.decisions.len() + p.intent.len(),
{
    let r = cut_down(role, p, budget);
    let none = Seq::<char>::empty();
    lemma_cut_down(role, p, budget);
    if load(role, p) <= budget {
    } else if p.intent.len() > 0 {
        let m = Parts { intent: none, ..p };
        lemma_cut_least(role, m, budget);
        lemma_cut_down(role, m, budget);
    } else if p.skills.len() > 1 {
        let m = Parts { skills: p.skills.drop_first(), ..p };
        lemma_cut_least(role, m, budget);
        lemma_cut_down(role, m, budget);
        assert(p.intent =~= none);
        assert(p.skills.skip(0) =~= p.skills);
        if r.skills.len() < m.skills.len() {
            assert(m.skills.skip(m.skills.len() - r.skills.len() - 1) =~= p.skills.skip(
                p.skills.len() - r.skills.len() - 1,
            ));
        }
    } else if p.decisions.len() > 1 {
        let m = Parts { decisions: p.decisions.drop_last(), ..p };
        lemma_cut_least(role, m, budget);
        lemma_cut_down(role, m, budget);
        assert(p.intent =~= none);
        assert(p.decisions.take(p.decisions.len() as int) =~= p.decisions);
        if r.decisions.len() < m.decisions.len() {
            assert(m.decisions.take(r.decisions.len() as int + 1) =~= p.decisions.take(
                r.decisions.len() as int + 1,
            ));
            assert(m.skills == p.skills);
        } else {
            assert(r == m);
            assert(r.skills == p.skills);
        }
    }
}

/// What is injected gives up no more than the budget takes. The intent goes only where all of
/// it is too much; a skill goes only where it is too much even without the intent, and then
/// the oldest first; the decisions go last, the oldest first.
#[verifier::spinoff_prover]
#[verifier::rlimit(30)]
pub proof fn lemma_budget_least(n: Notes, budget: nat, lim: Limits)
    ensures
        ({
            let role = injected_role(n, lim);
            let all = all_parts(n, lim);
            let kept = kept_parts(n, budget, lim);
            let none = Seq::<char>::empty();
            &&& kept.decisions.len() <= all.decisions.len()
            &&& kept.decisions == all.decisions.take(kept.decisions.len() as int)
            &&& kept.skills.len() <= all.skills.len()
            &&& kept.skills == all.skills.skip(all.skills.len() - kept.skills.len())
            &&& kept.decisions.len() < all.decisions.len() ==> load(role, all) > budget
            &&& kept.decisions.len() < all.decisions.len() && kept.decisions.len() < 3 ==> load(
                role,
                (Parts {
                    decisions: all.decisions.take(kept.decisions.len() as int + 1),
                    skills: kept.skills,
                    intent: none,
                }),
            ) > budget
            &&& kept.skills.len() < all.skills.len() && kept.decisions.len() >= 3 ==> load(
                role,
                (Parts {
                    decisions: kept.decisions,
                    skills: all.skills.skip(all.skills.len() - kept.skills.len() - 1),
                    intent: none,
                }),
            ) > budget
            &&& kept.intent != n.intent ==> load(role, all) > budget
        }),
{
    let role = injected_role(n, lim);
    let all = all_parts(n, lim);
    let p = fallen_back(role, all, budget);
    let kept = kept_parts(n, budget, lim);
    lemma_cut_down(role, p, budget);
    lemma_cut_least(role, p, budget);
    assert(all.decisions.take(all.decisions.len() as int) =~= all.decisions);
    assert(p.decisions.take(kept.decisions.len() as int) =~= all.decisions.take(
        kept.decisions.len() as int,
    ));
    if kept.decisions.len() < p.decisions.len() {
        assert(p.decisions.take(kept.decisions.len() as int + 1) =~= all.decisions.take(
            kept.decisions.len() as int + 1,
        ));
    } else {
        assert(kept.decisions =~= p.decisions);
    }
    if load(role, all) <= budget {
        assert(kept == all);
    }
}

/// What is offered for injection are the newest of the snapshot's skills, each once, and its
/// decisions as far as the limit goes; the role is cut to its limit.
pub proof fn lemma_offered(n: Notes, lim: Limits)
    ensures
        all_parts(n, lim).intent == n.intent,
        n.decisions.len() <= lim.inject_p2_n ==> all_parts(n, lim).decisions == n.decisions,
        n.decisions.len() > lim.inject_p2_n ==> all_parts(n, lim).decisions.len() == lim.inject_p2_n
            && all_parts(n, lim).decisions == n.decisions.skip(n.decisions.len() - lim.inject_p2_n),
        n.skills.no_duplicates() && n.skills.len() <= lim.inject_p3_n ==> all_parts(n, lim).skills
            == n.skills,
        n.skills.no_duplicates() && n.skills.len() > lim.inject_p3_n ==> all_parts(n, lim).skills
            == n.skills.skip(n.skills.len() - lim.inject_p3_n),
        n.role.len() <= lim.inject_p1_max_chars ==> injected_role(n, lim) == n.role,
        n.role.len() > lim.inject_p1_max_chars ==> injected_role(n, lim) == n.role.take(
            lim.inject_p1_max_chars as int,
        ),
{
    if n.skills.no_duplicates() {
        lemma_deduped_same(n.skills);
    }
}

proof fn lemma_deduped_same(v: Seq<Seq<char>>)
    requires
        v.no_duplicates(),
    ensures
        deduped(v) == v,
    decreases v.len(),
{
    if v.len() > 0 {
        let front = v.drop_last();
        assert forall|i: int, j: int| 0 <= i < front.len() && 0 <= j < front.len() && i
            != j implies front[i] != front[j] by {
            assert(front[i] == v[i] && front[j] == v[j]);
        }
        lemma_deduped_same(front);
        if front.contains(v.last()) {
            let i = front.index_of(v.last());
            assert(v[i] == v[v.len() - 1]);
        }
        assert(front.push(v.last()) =~= v);
    }
}

/// What is injected begins with the role, shows every decision and every skill that is kept,
/// verbatim, and ends with the intent.
#[verifier::spinoff_prover]
#[verifier::rlimit(30)]
pub proof fn lemma_assembled_shows(n: Notes, budget: nat, lim: Limits, i: int)
    ensures
        text::begins(assembled(n, budget, lim), "ROLE: "@ + injected_role(n, lim) + "\nDECISIONS: "@),
        0 <= i < kept_parts(n, budget, lim).decisions.len() ==> holds(
            assembled(n, budget, lim),
            kept_parts(n, budget, lim).decisions[i],
        ),
        0 <= i < kept_parts(n, budget, lim).skills.len() ==> holds(
            assembled(n, budget, lim),
            kept_parts(n, budget, lim).skills[i],
        ),
        ({
            let end = "\nINTENT: "@ + kept_parts(n, budget, lim).intent;
            let all = assembled(n, budget, lim);
            all.len() >= end.len() && all.skip(all.len() - end.len()) == end
        }),
{
    let p = kept_parts(n, budget, lim);
    let all = assembled(n, budget, lim);
    let d = joined(p.decisions, " | "@);
    let s = joined(p.skills, " | "@);
    let a = "ROLE: "@ + injected_role(n, lim) + "\nDECISIONS: "@;
    let b = a + d;
    let c = b + "\nSKILLS: "@;
    let e = c + s;
    let f = e + "\nINTENT: "@;
    assert(all == f + p.intent);
    assert(all.subrange(0, all.len() as int) =~= all);
    text::lemma_begins_first(all, f, p.intent);
    text::lemma_begins_first(all, e, "\nINTENT: "@);
    text::lemma_begins_holds(all, c, s);
    text::lemma_begins_first(all, c, s);
    text::lemma_begins_first(all, b, "\nSKILLS: "@);
    text::lemma_begins_holds(all, a, d);
    text::lemma_begins_first(all, a, d);
    if 0 <= i < p.decisions.len() {
        text::lemma_part_within(p.decisions, " | "@, i);
        text::lemma_has_within(all, d, p.decisions[i]);
    }
    if 0 <= i < p.skills.len() {
        text::lemma_part_within(p.skills, " | "@, i);
        text::lemma_has_within(all, s, p.skills[i]);
    }
    let end = "\nINTENT: "@ + p.intent;
    assert(all =~= e + end);
    assert((e + end).skip(e.len() as int) =~= end);
}

/// The file shows every field of the snapshot as JSON: the version, the session, the role, the
/// intent, and every decision and every skill.
#[verifier::spinoff_prover]
#[verifier::rlimit(30)]
pub proof fn lemma_text_shows(n: Notes, i: int)
    ensures
        text::begins(
            snapshot_text(n),
            "{\"v\":"@ + decimal_of(n.v as nat) + ",\"session\":"@ + quoted(n.session)
                + ",\"role\":"@ + quoted(n.role) + ",\"decisions\":"@,
        ),
        0 <= i < n.decisions.len() ==> holds(snapshot_text(n), quoted(n.decisions[i])),
        0 <= i < n.skills.len() ==> holds(snapshot_text(n), quoted(n.skills[i])),
        ({
            let end = ",\"intent\":"@ + quoted(n.intent) + "}"@;
            let all = snapshot_text(n);
            all.len() >= end.len() && all.skip(all.len() - end.len()) == end
        }),
{
    let all = snapshot_text(n);
    let d = list_text(n.decisions);
    let s = list_text(n.skills);
    let a = "{\"v\":"@ + decimal_of(n.v as nat) + ",\"session\":"@ + quoted(n.session)
        + ",\"role\":"@ + quoted(n.role) + ",\"decisions\":"@;
    let b = a + d;
    let c = b + ",\"skills\":"@;
    let e = c + s;
    let f = e + ",\"intent\":"@;
    let g = f + quoted(n.intent);
    assert(all == g + "}"@);
    assert(all.subrange(0, all.len() as int) =~= all);
    text::lemma_begins_first(all, g, "}"@);
    text::lemma_begins_first(all, f, quoted(n.intent));
    text::lemma_begins_first(all, e, ",\"intent\":"@);
    text::lemma_begins_holds(all, c, s);
    text::lemma_begins_first(all, c, s);
    text::lemma_begins_first(all, b, ",\"skills\":"@);
    text::lemma_begins_holds(all, a, d);
    text::lemma_begins_first(all, a, d);
    if 0 <= i < n.decisions.len() {
        lemma_list_shows(n.decisions, i);
        text::lemma_has_within(all, d, quoted(n.decisions[i]));
    }
    if 0 <= i < n.skills.len() {
        lemma_list_shows(n.skills, i);
        text::lemma_has_within(all, s, quoted(n.skills[i]));
    }
    let x = ",\"intent\":"@;
    let y = quoted(n.intent);
    let end = x + y + "}"@;
    assert(all =~= e + end) by {
        assert(f + y =~= e + (x + y));
        assert((e + (x + y)) + "}"@ =~= e + end);
    }
    assert((e + end).skip(e.len() as int) =~= end);
}

/// A list shows its items as JSON strings between brackets, a comma between neighbours.
pub proof fn lemma_list_shows(items: Seq<Seq<char>>, i: int)
    requires
        0 <= i < items.len(),
    ensures
        holds(list_text(items), quoted(items[i])),
        items.len() == 1 ==> list_text(items) == "["@ + quoted(items[0]) + "]"@,
        items.len() > 1 ==> list_text(items).drop_last() == list_text(items.drop_last()).drop_last()
            + ","@ + quoted(items.last()),
{
    reveal_strlit("[");
    reveal_strlit("]");
    let q = items.map_values(|s: Seq<char>| quoted(s));
    let f = items.drop_last();
    let p = f.map_values(|s: Seq<char>| quoted(s));
    text::lemma_part_within(q, ","@, i);
    text::lemma_middle("["@, joined(q, ","@), "]"@);
    text::lemma_has_within(list_text(items), joined(q, ","@), q[i]);
    if items.len() > 1 {
        assert(q.drop_last() =~= p);
        lemma_bracketed("["@, joined(p, ","@), ","@, q.last(), "]"@);
    }
}

proof fn lemma_bracketed(
    open: Seq<char>,
    items: Seq<char>,
    comma: Seq<char>,
    last: Seq<char>,
    close: Seq<char>,
)
    requires
        close.len() == 1,
    ensures
        (open + (items + comma + last) + close).drop_last() == (open + items + close).drop_last()
            + comma + last,
{
    assert((open + items + close).drop_last() =~= open + items);
    assert((open + (items + comma + last) + close).drop_last() =~= open + (items + comma + last));
    assert(open + (items + comma) =~= open + items + comma);
    assert(open + (items + comma + last) =~= open + (items + comma) + last);
}

/// A record adds the paths that it touches: the file of the tool that it reports, then the
/// files of the tools that its message uses; a record that touches none adds none.
pub proof fn lemma_paths_added(recs: Seq<Tree>, r: Tree, b: Tree, p: Seq<char>, q: Seq<char>)
    ensures
        inner(r, "tool_input"@, "file_path"@) == Some(Tree::Text(p)) && inner(
            r,
            "message"@,
            "content"@,
        ) is None ==> paths_in(recs.push(r)) == paths_in(recs).push(p),
        inner(r, "tool_input"@, "file_path"@) is None && inner(r, "message"@, "content"@) == Some(
            Tree::List(seq![b]),
        ) && string(field(b, "type"@)) == Some("tool_use"@) && inner(b, "input"@, "file_path"@)
            == Some(Tree::Text(q)) ==> paths_in(recs.push(r)) == paths_in(recs).push(q),
        inner(r, "tool_input"@, "file_path"@) == Some(Tree::Text(p)) && inner(
            r,
            "message"@,
            "content"@,
        ) == Some(Tree::List(seq![b])) && string(field(b, "type"@)) == Some("tool_use"@) && inner(
            b,
            "input"@,
            "file_path"@,
        ) == Some(Tree::Text(q)) ==> paths_in(recs.push(r)) == paths_in(recs).push(p).push(q),
        inner(r, "tool_input"@, "file_path"@) is None && inner(r, "message"@, "content"@) is None
            ==> paths_in(recs.push(r)) == paths_in(recs),
{
    assert(recs.push(r).drop_last() =~= recs);
    let one = seq![b];
    assert(one.drop_last() =~= Seq::empty());
    assert(one.last() == b);
    reveal_with_fuel(with_block_paths, 2);
}

/// The blocks of a message add their paths one after the other.
pub proof fn lemma_block_paths_in_turn(paths: Seq<Seq<char>>, a: Seq<Tree>, b: Seq<Tree>)
    ensures
        with_block_paths(paths, a + b) == with_block_paths(with_block_paths(paths, a), b),
    decreases b.len(),
{
    if b.len() == 0 {
        assert(a + b =~= a);
    } else {
        lemma_block_paths_in_turn(paths, a, b.drop_last());
        assert((a + b).drop_last() =~= a + b.drop_last());
        assert((a + b).last() == b.last());
    }
}

/// Every name is counted as often as it stands in the list, and only those are.
pub proof fn lemma_counted(names: Seq<Seq<char>>, x: Seq<char>)
    ensures
        tally::ordered(counted(names)),
        tally::amount(counted(names), x) == names.to_multiset().count(x),
        tally::named(counted(names), x) <==> names.contains(x),
    decreases names.len(),
{
    broadcast use vstd::seq_lib::group_to_multiset_ensures;

    if names.len() > 0 {
        let front = names.drop_last();
        let last = names.last();
        lemma_counted(front, x);
        tally::lemma_bumped(counted(front), last, 1);
        tally::lemma_bumped_named(counted(front), last, 1, x);
        assert(names =~= front.push(last));
        assert(names.to_multiset() =~= front.to_multiset().insert(last));
        if names.contains(x) {
            let i = names.index_of(x);
            if i < front.len() {
                assert(front[i] == x);
                assert(front.contains(x));
            }
        }
        if front.contains(x) {
            let i = front.index_of(x);
            assert(names[i] == x);
        }
        assert(names[names.len() - 1] == last);
    }
}

/// Where no message of the user says enough, the role names the files that were touched most:
/// at most six, none twice, the most touched first.
#[verifier::spinoff_prover]
#[verifier::rlimit(30)]
pub proof fn lemma_role_from_paths(users: Seq<Seq<char>>, recs: Seq<Tree>, lim: Limits) -> (named:
    Seq<Seq<char>>)
    requires
        users.len() == 0 || byte_count(
            trimmed(
                if users[0].len() <= lim.inject_p1_max_chars {
                    users[0]
                } else {
                    users[0].take(lim.inject_p1_max_chars as int)
                },
            ),
        ) < 20,
        0 < paths_in(recs).len() <= u64::MAX,
    ensures
        role_of(users, recs, lim) == "Working on: "@ + joined(named, ", "@),
        0 < named.len() <= 6,
        named.no_duplicates(),
        forall|i: int| 0 <= i < named.len() ==> paths_in(recs).contains(#[trigger] named[i]),
        forall|i: int, j: int|
            0 <= i < j < named.len() ==> paths_in(recs).to_multiset().count(#[trigger] named[i])
                > paths_in(recs).to_multiset().count(#[trigger] named[j]) || (
            paths_in(recs).to_multiset().count(named[i]) == paths_in(recs).to_multiset().count(
                named[j],
            ) && text::before(named[i], named[j])),
        named == most_touched(touched(recs)),
{
    let paths = paths_in(recs);
    let table = touched(recs);
    let named = most_touched(table);
    let keys = Seq::new(table.len(), |i: int| table[i].1 as u64);
    let order = tally::ranked(keys, table.len());
    tally::lemma_ranked(keys, table.len());
    lemma_counted(paths, paths[0]);
    assert(paths.contains(paths[0]));
    lemma_counted_total(paths);
    assert forall|i: int| 0 <= i < table.len() implies #[trigger] keys[i]
        == paths.to_multiset().count(table[i].0) && paths.contains(table[i].0) by {
        lemma_counted(paths, table[i].0);
        tally::lemma_amount_of_row(table, i);
        tally::lemma_amount_within(table, table[i].0);
        assert(tally::named(table, table[i].0));
    }
    assert forall|i: int| 0 <= i < named.len() implies #[trigger] named[i] == table[order[i]].0
        && paths.contains(named[i]) && keys[order[i]] == paths.to_multiset().count(named[i]) by {
        assert(keys[order[i]] == paths.to_multiset().count(table[order[i]].0));
    }
    assert forall|i: int, j: int| 0 <= i < j < named.len() implies paths.to_multiset().count(
        #[trigger] named[i],
    ) > paths.to_multiset().count(#[trigger] named[j]) || (paths.to_multiset().count(named[i])
        == paths.to_multiset().count(named[j]) && text::before(named[i], named[j])) by {
        assert(keys[order[i]] == paths.to_multiset().count(named[i]));
        assert(keys[order[j]] == paths.to_multiset().count(named[j]));
        assert(keys[order[i]] > keys[order[j]] || keys[order[i]] == keys[order[j]] && order[i]
            < order[j]);
        if order[i] < order[j] {
            assert(text::before(table[order[i]].0, table[order[j]].0));
        }
    }
    assert forall|i: int, j: int| 0 <= i < named.len() && 0 <= j < named.len() && i
        != j implies named[i] != named[j] by {
        let (a, b) = (order[i], order[j]);
        if i < j {
            assert(keys[order[i]] > keys[order[j]] || order[i] < order[j]);
        } else {
            assert(keys[order[j]] > keys[order[i]] || order[j] < order[i]);
        }
        assert(a != b);
        tally::lemma_before_total(table[a].0, table[b].0);
        if a < b {
            assert(text::before(table[a].0, table[b].0));
        } else {
            assert(text::before(table[b].0, table[a].0));
        }
    }
    named
}

/// A file is left out only where six are named, and none of those was touched less often.
pub proof fn lemma_left_out(recs: Seq<Tree>, p: Seq<char>, i: int)
    requires
        paths_in(recs).len() <= u64::MAX,
        paths_in(recs).contains(p),
        !most_touched(touched(recs)).contains(p),
        0 <= i < most_touched(touched(recs)).len(),
    ensures
        most_touched(touched(recs)).len() == 6,
        paths_in(recs).to_multiset().count(p) <= paths_in(recs).to_multiset().count(
            most_touched(touched(recs))[i],
        ),
{
    let paths = paths_in(recs);
    let table = touched(recs);
    let named = most_touched(table);
    let keys = Seq::new(table.len(), |i: int| table[i].1 as u64);
    let order = tally::ranked(keys, table.len());
    tally::lemma_ranked(keys, table.len());
    lemma_counted(paths, p);
    lemma_counted_total(paths);
    let k = choose|k: int| 0 <= k < table.len() && (#[trigger] table[k]).0 == p;
    assert(order.contains(k));
    let at = order.index_of(k);
    assert(table[order[at]].0 == p);
    if at < named.len() {
        assert(named[at] == p);
    }
    assert(keys[order[i]] >= keys[order[at]]);
    lemma_counted(paths, named[i]);
    tally::lemma_amount_of_row(table, k);
    tally::lemma_amount_of_row(table, order[i]);
    tally::lemma_amount_within(table, table[k].0);
    tally::lemma_amount_within(table, table[order[i]].0);
}

/// The load is what the parts take in tokens of four bytes, each rounded up.
pub proof fn lemma_load(role: Seq<char>, p: Parts)
    ensures
        ({
            let bytes = byte_count(role) + byte_count(joined(p.decisions, " | "@)) + byte_count(
                joined(p.skills, " | "@),
            ) + byte_count(p.intent);
            bytes <= 4 * load(role, p) <= bytes + 12
        }),
        byte_count(role) % 4 == 0 && p.decisions.len() == 0 && p.skills.len() == 0
            && p.intent.len() == 0 ==> 4 * load(role, p) == byte_count(role),
{
    let none = Seq::<char>::empty();
    if p.decisions.len() == 0 && p.skills.len() == 0 && p.intent.len() == 0 {
        assert(p.intent =~= none);
        assert(vstd::utf8::encode_utf8(none) =~= Seq::<u8>::empty());
    }
}

/// What is injected is as small as the budget says, four bytes to a token, but for the labels
/// of its four parts.
pub proof fn lemma_injected_size(n: Notes, budget: nat, lim: Limits)
    requires
        load(injected_role(n, lim), kept_parts(n, budget, lim)) <= budget,
    ensures
        byte_count(assembled(n, budget, lim)) <= 4 * budget + byte_count("ROLE: "@) + byte_count(
            "\nDECISIONS: "@,
        ) + byte_count("\nSKILLS: "@) + byte_count("\nINTENT: "@),
{
    let p = kept_parts(n, budget, lim);
    let role = injected_role(n, lim);
    let d = joined(p.decisions, " | "@);
    let s = joined(p.skills, " | "@);
    lemma_load(role, p);
    let a = "ROLE: "@ + role;
    let b = a + "\nDECISIONS: "@;
    let c = b + d;
    let e = c + "\nSKILLS: "@;
    let f = e + s;
    let g = f + "\nINTENT: "@;
    text::lemma_byte_count_concat("ROLE: "@, role);
    text::lemma_byte_count_concat(a, "\nDECISIONS: "@);
    text::lemma_byte_count_concat(b, d);
    text::lemma_byte_count_concat(c, "\nSKILLS: "@);
    text::lemma_byte_count_concat(e, s);
    text::lemma_byte_count_concat(f, "\nINTENT: "@);
    text::lemma_byte_count_concat(g, p.intent);
}

/// A snapshot says which version of the format it is and which session it is of.
pub proof fn lemma_notes_labelled(transcript: Seq<char>, session: Seq<char>, lim: Limits)
    ensures
        notes_of(transcript, session, lim).v == 1,
        notes_of(transcript, session, lim).session == session,
{
}

/// The word alone is no decision: behind it stands a colon or white space.
pub proof fn lemma_decision_word(t: Seq<char>, c: char, rest: Seq<char>)
    requires
        lowered(t) == "decision"@ + seq![c] + rest,
        !holds(lowered(t), "we will use"@),
        !holds(lowered(t), "we will write"@),
        !holds(lowered(t), "chosen"@),
        !holds(lowered(t), "采用"@),
        !holds(lowered(t), "选定"@),
    ensures
        decision_shaped(t) <==> c == ':' || text::white(c),
{
    reveal_strlit("decision");
    reveal_strlit("决定");
    reveal_strlit("决定：");
    let l = lowered(t);
    assert(l.subrange(0, 8) =~= "decision"@);
    assert(l[8] == c);
    assert(!text::begins(l, "决定"@)) by {
        if text::begins(l, "决定"@) {
            assert(l.subrange(0, 2)[0] == l[0]);
        }
    }
    assert(!text::begins(l, "决定："@)) by {
        if text::begins(l, "决定："@) {
            assert(l.subrange(0, 3)[0] == l[0]);
        }
    }
}

} // verus!
