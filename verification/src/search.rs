//! Search over the texts that TSK keeps on disk: which words occur where, how the hits are
//! ranked, and the exact lines that are shown. Nothing is indexed ahead of time.

use vstd::prelude::*;

use crate::number;
use crate::number::decimal_of;
use crate::path;
use crate::snapshot;
use crate::tally;
use crate::text;
use crate::text::{alphanumeric, byte_count, first_chars, holds, joined, lowered, texts};

verus! {

/// Lines shown above and below a hit.
pub const SNIPPET_LINES: usize = 6;

/// Larger files are not searched.
pub const MAX_INDEX_BYTES: usize = 1024 * 1024;

/// Characters shown of a text in which no line has a hit.
pub const SNIPPET_CHARS: usize = 600;

/// A text on disk that can be searched.
#[derive(Debug, PartialEq)]
pub struct IndexedFile {
    pub path: String,
    pub session: String,
    pub title: String,
    pub bytes: usize,
    pub text: String,
}

/// One search result.
#[derive(Debug, PartialEq)]
pub struct SearchHit {
    pub path: String,
    pub score: u32,
    pub bytes: usize,
    /// The lines round the hit, verbatim.
    pub snippet: String,
}

/// Is a file of that name and size searched?
pub open spec fn indexed(file: Seq<char>, bytes: usize) -> bool {
    path::extension_of(file) == Some("txt"@) && 0 < bytes <= MAX_INDEX_BYTES
}

/// Is a file of that name and size searched? Texts are, unless they are empty or too large.
pub fn is_indexed(file: &str, bytes: usize) -> (b: bool)
    ensures
        b == indexed(file@, bytes),
{
    match path::extension(file) {
        Some(e) => text::same(e.as_str(), "txt") && bytes > 0 && bytes <= MAX_INDEX_BYTES,
        None => false,
    }
}

/// Can a word hold the character?
pub open spec fn word_char(c: char) -> bool {
    alphanumeric(c) || c == '_'
}

/// A text cut at every character that no word can hold.
pub open spec fn word_pieces(s: Seq<char>) -> Seq<Seq<char>>
    decreases s.len(),
{
    if s.len() == 0 {
        seq![Seq::empty()]
    } else {
        let before = word_pieces(s.drop_last());
        if word_char(s.last()) {
            before.drop_last().push(before.last().push(s.last()))
        } else {
            before.push(Seq::empty())
        }
    }
}

/// The words of at least two bytes.
pub open spec fn long_words(words: Seq<Seq<char>>) -> Seq<Seq<char>>
    decreases words.len(),
{
    if words.len() == 0 {
        Seq::empty()
    } else if byte_count(words.last()) >= 2 {
        long_words(words.drop_last()).push(words.last())
    } else {
        long_words(words.drop_last())
    }
}

/// The words of a text, in lower case.
pub open spec fn terms(s: Seq<char>) -> Seq<Seq<char>> {
    long_words(word_pieces(lowered(s)))
}

fn cut_words(s: &str) -> (r: Vec<String>)
    ensures
        texts(r@) == word_pieces(s@),
{
    let v = text::chars(s);
    let mut out: Vec<String> = Vec::new();
    let mut cur = String::new();
    let mut i: usize = 0;
    proof {
        assert(v@.take(0) =~= Seq::empty());
        assert(texts(out@).push(cur@) =~= word_pieces(v@.take(0)));
    }
    while i < v.len()
        invariant
            i <= v@.len(),
            texts(out@).push(cur@) == word_pieces(v@.take(i as int)),
        decreases v@.len() - i,
    {
        let ghost before = word_pieces(v@.take(i as int));
        proof {
            assert(v@.take(i + 1).drop_last() =~= v@.take(i as int));
            assert(v@.take(i + 1).last() == v@[i as int]);
            assert(before.drop_last() =~= texts(out@));
            assert(before.last() == cur@);
        }
        if v[i].is_alphanumeric() || v[i] == '_' {
            cur.push(v[i]);
            assert(texts(out@).push(cur@) =~= before.drop_last().push(
                before.last().push(v@[i as int]),
            ));
        } else {
            proof {
                text::lemma_texts_push(out@, cur);
            }
            out.push(cur);
            cur = String::new();
            assert(texts(out@).push(cur@) =~= before.push(Seq::empty()));
        }
        i = i + 1;
    }
    proof {
        assert(v@.take(i as int) =~= v@);
        text::lemma_texts_push(out@, cur);
    }
    out.push(cur);
    out
}

/// The words of a text of at least two bytes, in lower case.
pub fn tokenize(s: &str) -> (r: Vec<String>)
    ensures
        texts(r@) == terms(s@),
{
    let lower = s.to_lowercase();
    let words = cut_words(lower.as_str());
    let ghost all = texts(words@);
    let mut out: Vec<String> = Vec::new();
    let mut i: usize = 0;
    assert(texts(out@) =~= Seq::empty());
    while i < words.len()
        invariant
            i <= words@.len(),
            all == texts(words@),
            texts(out@) == long_words(all.take(i as int)),
        decreases words@.len() - i,
    {
        proof {
            assert(all.take(i + 1).drop_last() =~= all.take(i as int));
            assert(all.take(i + 1).last() == words@[i as int]@);
        }
        if text::byte_len(words[i].as_str()) >= 2 {
            let w = text::copy(words[i].as_str());
            proof {
                text::lemma_texts_push(out@, w);
            }
            out.push(w);
        }
        i = i + 1;
    }
    assert(all.take(i as int) =~= all);
    out
}

/// Does a line hold one of the words, whatever the case?
pub open spec fn hit(line: Seq<char>, words: Seq<Seq<char>>) -> bool {
    exists|i: int| 0 <= i < words.len() && holds(lowered(line), #[trigger] words[i])
}

/// The first line with a hit.
pub open spec fn first_hit(lines: Seq<Seq<char>>, words: Seq<Seq<char>>) -> Option<nat>
    decreases lines.len(),
{
    if lines.len() == 0 {
        None
    } else if first_hit(lines.drop_last(), words) is Some {
        first_hit(lines.drop_last(), words)
    } else if hit(lines.last(), words) {
        Some((lines.len() - 1) as nat)
    } else {
        None
    }
}

/// Where the window round a hit begins.
pub open spec fn window_start(c: nat, pad: nat) -> nat {
    if c > pad {
        (c - pad) as nat
    } else {
        0
    }
}

/// Where the window round a hit ends.
pub open spec fn window_end(c: nat, pad: nat, lines: nat) -> nat {
    if c + pad + 1 < lines {
        c + pad + 1
    } else {
        lines
    }
}

/// The window of up to `pad` lines on both sides of line `c`, verbatim, with a note where
/// lines are left out.
pub open spec fn window(lines: Seq<Seq<char>>, c: nat, pad: nat) -> Seq<char> {
    let s = window_start(c, pad);
    let e = window_end(c, pad, lines.len());
    (if s > 0 {
        "…["@ + decimal_of((c - s) as nat) + " lines above]…\n"@
    } else {
        Seq::empty()
    }) + joined(lines.subrange(s as int, e as int), "\n"@) + (if e < lines.len() {
        "\n…["@ + decimal_of((lines.len() - e) as nat) + " lines below]…"@
    } else {
        Seq::empty()
    })
}

/// What is shown of a text: the window round the first line with a hit, or its beginning
/// where no line has one.
pub open spec fn snippet(text: Seq<char>, words: Seq<Seq<char>>, pad: nat) -> Seq<char> {
    let lines = text::lines_of(text);
    match first_hit(lines, words) {
        Some(c) => window(lines, c, pad),
        None => first_chars(text, SNIPPET_CHARS as nat),
    }
}

fn is_hit(line: &str, words: &Vec<String>) -> (b: bool)
    ensures
        b == hit(line@, texts(words@)),
{
    let lower = line.to_lowercase();
    let ghost all = texts(words@);
    let mut i: usize = 0;
    while i < words.len()
        invariant
            i <= words@.len(),
            all == texts(words@),
            lower@ == lowered(line@),
            forall|k: int| 0 <= k < i ==> !(holds(lower@, #[trigger] all[k])),
        decreases words@.len() - i,
    {
        assert(all[i as int] == words@[i as int]@);
        if text::contains(lower.as_str(), words[i].as_str()) {
            return true;
        }
        i = i + 1;
    }
    false
}

proof fn lemma_first_hit(lines: Seq<Seq<char>>, words: Seq<Seq<char>>, n: int)
    requires
        0 <= n <= lines.len(),
        first_hit(lines.take(n), words) is Some,
    ensures
        first_hit(lines, words) == first_hit(lines.take(n), words),
    decreases lines.len() - n,
{
    if n < lines.len() {
        assert(lines.take(n + 1).drop_last() =~= lines.take(n));
        lemma_first_hit(lines, words, n + 1);
    } else {
        assert(lines.take(n) =~= lines);
    }
}

/// The window round the first line with one of the words, verbatim.
pub fn snippet_around_hit(text: &str, words: &Vec<String>, pad: usize) -> (r: String)
    ensures
        r@ == snippet(text@, texts(words@), pad as nat),
{
    let lines = text::lines(text);
    let ghost all = texts(lines@);
    let ghost w = texts(words@);
    let n = lines.len();
    assert(all.len() == n);
    let mut i: usize = 0;
    while i < n
        invariant
            i <= n,
            n == lines@.len(),
            all == texts(lines@),
            w == texts(words@),
            all == text::lines_of(text@),
            first_hit(all.take(i as int), w) is None,
        decreases n - i,
    {
        proof {
            assert(all.take(i + 1).drop_last() =~= all.take(i as int));
            assert(all.take(i + 1).last() == lines@[i as int]@);
        }
        if is_hit(lines[i].as_str(), words) {
            proof {
                assert(first_hit(all.take(i + 1), w) == Some(i as nat));
                lemma_first_hit(all, w, i + 1);
            }
            return show_window(&lines, i, pad);
        }
        i = i + 1;
    }
    assert(all.take(i as int) =~= all);
    text::take_chars(text, SNIPPET_CHARS)
}

fn show_window(lines: &Vec<String>, c: usize, pad: usize) -> (r: String)
    requires
        c < lines@.len(),
    ensures
        r@ == window(texts(lines@), c as nat, pad as nat),
{
    let n = lines.len();
    assert(texts(lines@).len() == n);
    let s: usize = if c > pad {
        c - pad
    } else {
        0
    };
    let e: usize = if pad < n - c {
        c + pad + 1
    } else {
        n
    };
    let mut out = String::new();
    if s > 0 {
        out.append("…[");
        out.append(number::decimal((c - s) as u64).as_str());
        out.append(" lines above]…\n");
    }
    let ghost above = out@;
    proof {
        assert(above =~= if s > 0 {
            "…["@ + decimal_of((c - s) as nat) + " lines above]…\n"@
        } else {
            Seq::empty()
        });
    }
    let part = text::copy_range(lines, s, e);
    out.append(text::join(&part, "\n").as_str());
    let ghost middle = out@;
    let mut below = String::new();
    if e < n {
        below.append("\n…[");
        below.append(number::decimal((n - e) as u64).as_str());
        below.append(" lines below]…");
    }
    proof {
        assert(below@ =~= if e < n {
            "\n…["@ + decimal_of((n - e) as nat) + " lines below]…"@
        } else {
            Seq::empty()
        });
    }
    out.append(below.as_str());
    out
}

/// How often `x` stands in `v`.
pub open spec fn count_of(v: Seq<Seq<char>>, x: Seq<char>) -> nat
    decreases v.len(),
{
    if v.len() == 0 {
        0
    } else {
        count_of(v.drop_last(), x) + (if v.last() == x {
            1nat
        } else {
            0nat
        })
    }
}

/// A text to be searched, with strings as texts.
pub struct Doc {
    pub path: Seq<char>,
    pub session: Seq<char>,
    pub title: Seq<char>,
    pub bytes: usize,
    pub text: Seq<char>,
}

impl IndexedFile {
    /// What the file holds.
    pub open spec fn doc(self) -> Doc {
        Doc {
            path: self.path@,
            session: self.session@,
            title: self.title@,
            bytes: self.bytes,
            text: self.text@,
        }
    }
}

/// What the files hold.
pub open spec fn docs(files: Seq<IndexedFile>) -> Seq<Doc> {
    files.map_values(|f: IndexedFile| f.doc())
}

/// Is a text searched, given the session to which the search is limited?
pub open spec fn in_session(d: Doc, session: Option<Seq<char>>) -> bool {
    match session {
        Some(s) => d.session == s,
        None => true,
    }
}

/// The texts that are searched, by their place.
pub open spec fn selected(ds: Seq<Doc>, session: Option<Seq<char>>) -> Seq<int>
    decreases ds.len(),
{
    if ds.len() == 0 {
        Seq::empty()
    } else {
        let before = selected(ds.drop_last(), session);
        if in_session(ds.last(), session) {
            before.push(ds.len() - 1)
        } else {
            before
        }
    }
}

/// The words of a query, each once.
pub open spec fn query_words(query: Seq<char>) -> Seq<Seq<char>> {
    snapshot::deduped(terms(query))
}

/// What a search counts: the words, the places of the texts that are searched, and how often
/// each text has each word.
#[derive(Debug, PartialEq)]
pub struct Stats {
    pub words: Vec<String>,
    pub docs: Vec<usize>,
    pub counts: Vec<Vec<usize>>,
}

impl Stats {
    /// Are these the counts of the query over the texts?
    pub open spec fn counts_for(
        self,
        query: Seq<char>,
        ds: Seq<Doc>,
        session: Option<Seq<char>>,
    ) -> bool {
        &&& texts(self.words@) == query_words(query)
        &&& tally::indices(self.docs@) == selected(ds, session)
        &&& forall|d: int| 0 <= d < self.docs@.len() ==> #[trigger] self.docs@[d] < ds.len()
        &&& self.counts@.len() == self.docs@.len()
        &&& forall|d: int|
            0 <= d < self.docs@.len() ==> (#[trigger] self.counts@[d])@.len() == self.words@.len()
        &&& forall|d: int, w: int|
            0 <= d < self.docs@.len() && 0 <= w < self.words@.len() ==> #[trigger] self.counts@[d]@[w]
                == count_of(terms(ds[self.docs@[d] as int].text), query_words(query)[w])
    }
}

fn count_word(v: &Vec<String>, x: &str) -> (n: usize)
    ensures
        n == count_of(texts(v@), x@),
{
    let ghost all = texts(v@);
    let mut n: usize = 0;
    let mut i: usize = 0;
    while i < v.len()
        invariant
            i <= v.len(),
            n <= i,
            all == texts(v@),
            n == count_of(all.take(i as int), x@),
        decreases v@.len() - i,
    {
        proof {
            assert(all.take(i + 1).drop_last() =~= all.take(i as int));
            assert(all.take(i + 1).last() == v@[i as int]@);
        }
        if text::same(v[i].as_str(), x) {
            n = n + 1;
        }
        i = i + 1;
    }
    assert(all.take(i as int) =~= all);
    n
}

fn count_words(words: &Vec<String>, content: &str) -> (r: Vec<usize>)
    ensures
        r@.len() == words@.len(),
        forall|w: int|
            0 <= w < r@.len() ==> #[trigger] r@[w] == count_of(terms(content@), texts(words@)[w]),
{
    let found = tokenize(content);
    let mut out: Vec<usize> = Vec::new();
    let mut i: usize = 0;
    while i < words.len()
        invariant
            i <= words@.len(),
            texts(found@) == terms(content@),
            out@.len() == i,
            forall|w: int|
                0 <= w < i ==> #[trigger] out@[w] == count_of(
                    terms(content@),
                    texts(words@)[w],
                ),
        decreases words@.len() - i,
    {
        assert(texts(words@)[i as int] == words@[i as int]@);
        out.push(count_word(&found, words[i].as_str()));
        i = i + 1;
    }
    out
}

/// Counts the words of the query in the texts of the session, or in all texts.
pub fn statistics(query: &str, files: &Vec<IndexedFile>, session: Option<&str>) -> (r: Stats)
    ensures
        r.counts_for(query@, docs(files@), crate::json::shown(session)),
{
    let words = snapshot::dedup(&tokenize(query));
    let ghost ds = docs(files@);
    let ghost limit = crate::json::shown(session);
    let mut chosen: Vec<usize> = Vec::new();
    let mut counts: Vec<Vec<usize>> = Vec::new();
    assert(tally::indices(chosen@) =~= Seq::empty());
    assert(texts(words@).len() == words@.len());
    let mut i: usize = 0;
    while i < files.len()
        invariant
            i <= files@.len(),
            ds == docs(files@),
            limit == crate::json::shown(session),
            texts(words@) == query_words(query@),
            words@.len() == query_words(query@).len(),
            tally::indices(chosen@) == selected(ds.take(i as int), limit),
            counts@.len() == chosen@.len(),
            forall|d: int| 0 <= d < chosen@.len() ==> #[trigger] chosen@[d] < i,
            forall|d: int|
                0 <= d < chosen@.len() ==> (#[trigger] counts@[d])@.len() == words@.len(),
            forall|d: int, w: int|
                0 <= d < chosen@.len() && 0 <= w < words@.len() ==> #[trigger] counts@[d]@[w]
                    == count_of(terms(ds[chosen@[d] as int].text), query_words(query@)[w]),
        decreases files@.len() - i,
    {
        proof {
            assert(ds.take(i + 1).drop_last() =~= ds.take(i as int));
            assert(ds.take(i + 1).last() == ds[i as int]);
            assert(ds[i as int] == files@[i as int].doc());
        }
        let f = &files[i];
        let wanted = match session {
            Some(s) => text::same(f.session.as_str(), s),
            None => true,
        };
        if wanted {
            let ghost had = chosen@;
            let ghost old_counts = counts@;
            let row = count_words(&words, f.text.as_str());
            chosen.push(i);
            counts.push(row);
            proof {
                assert(tally::indices(chosen@) =~= tally::indices(had).push(i as int));
                assert forall|d: int, w: int|
                    0 <= d < chosen@.len() && 0 <= w < words@.len() implies #[trigger] counts@[d]@[w]
                    == count_of(terms(ds[chosen@[d] as int].text), query_words(query@)[w]) by {
                    if d < had.len() {
                        assert(counts@[d] == old_counts[d]);
                        assert(chosen@[d] == had[d]);
                        assert(old_counts[d]@[w] == count_of(
                            terms(ds[had[d] as int].text),
                            query_words(query@)[w],
                        ));
                    }
                }
            }
        }
        i = i + 1;
    }
    assert(ds.take(i as int) =~= ds);
    Stats { words, docs: chosen, counts }
}

/// In how many of the texts the word number `w` occurs.
pub open spec fn frequency(counts: Seq<Vec<usize>>, w: int) -> nat
    decreases counts.len(),
{
    if counts.len() == 0 {
        0
    } else {
        frequency(counts.drop_last(), w) + (if counts.last()@[w] > 0 {
            1nat
        } else {
            0nat
        })
    }
}

/// In how many of the texts the word number `w` occurs.
pub fn document_frequency(stats: &Stats, w: usize) -> (n: usize)
    requires
        forall|d: int| 0 <= d < stats.counts@.len() ==> w < (#[trigger] stats.counts@[d])@.len(),
    ensures
        n == frequency(stats.counts@, w as int),
        n <= stats.counts@.len(),
{
    let ghost all = stats.counts@;
    let mut n: usize = 0;
    let mut i: usize = 0;
    while i < stats.counts.len()
        invariant
            i <= stats.counts.len(),
            all == stats.counts@,
            n <= i,
            n == frequency(all.take(i as int), w as int),
            forall|d: int| 0 <= d < all.len() ==> w < (#[trigger] all[d])@.len(),
        decreases stats.counts@.len() - i,
    {
        proof {
            assert(all.take(i + 1).drop_last() =~= all.take(i as int));
            assert(all.take(i + 1).last() == all[i as int]);
        }
        if stats.counts[i][w] > 0 {
            n = n + 1;
        }
        i = i + 1;
    }
    assert(all.take(i as int) =~= all);
    n
}

/// What a search result shows, with strings as texts.
pub struct Hit {
    pub path: Seq<char>,
    pub score: u32,
    pub bytes: usize,
    pub snippet: Seq<char>,
}

impl SearchHit {
    /// What the result shows.
    pub open spec fn shows(self) -> Hit {
        Hit {
            path: self.path@,
            score: self.score,
            bytes: self.bytes,
            snippet: self.snippet@,
        }
    }
}

/// The result for one text.
pub open spec fn hit_for(d: Doc, score: u32, words: Seq<Seq<char>>) -> Hit {
    Hit {
        path: d.path,
        score,
        bytes: d.bytes,
        snippet: snippet(d.text, words, SNIPPET_LINES as nat),
    }
}

/// Does a text with these counts have a word of the query?
pub open spec fn matched(row: Vec<usize>) -> bool {
    exists|w: int| 0 <= w < row@.len() && #[trigger] row@[w] > 0
}

/// The places in the counts of the texts that have a word of the query, in order.
pub open spec fn candidates(counts: Seq<Vec<usize>>) -> Seq<int>
    decreases counts.len(),
{
    if counts.len() == 0 {
        Seq::empty()
    } else {
        let before = candidates(counts.drop_last());
        if matched(counts.last()) {
            before.push(counts.len() - 1)
        } else {
            before
        }
    }
}

/// The scores of the candidates.
pub open spec fn candidate_scores(counts: Seq<Vec<usize>>, scores: Seq<u32>) -> Seq<u64> {
    candidates(counts).map_values(|d: int| scores[d] as u64)
}

/// The places of the results, the highest score first, equal scores in the order of the
/// texts; at most `top` of them, but never less than one is asked for.
pub open spec fn best(counts: Seq<Vec<usize>>, scores: Seq<u32>, top: nat) -> Seq<int> {
    let c = candidates(counts);
    let order = tally::ranked(candidate_scores(counts, scores), c.len());
    let asked = if top > 1 {
        top
    } else {
        1
    };
    Seq::new(
        if c.len() < asked {
            c.len()
        } else {
            asked
        },
        |i: int| c[order[i]],
    )
}

/// The results that stand at those places.
pub open spec fn hits_at(
    places: Seq<int>,
    ds: Seq<Doc>,
    chosen: Seq<int>,
    scores: Seq<u32>,
    words: Seq<Seq<char>>,
) -> Seq<Hit> {
    places.map_values(|d: int| hit_for(ds[chosen[d]], scores[d], words))
}

/// What the results show.
pub open spec fn shown_hits(hits: Seq<SearchHit>) -> Seq<Hit> {
    hits.map_values(|h: SearchHit| h.shows())
}

fn is_matched(row: &Vec<usize>) -> (b: bool)
    ensures
        b == matched(*row),
{
    let mut w: usize = 0;
    while w < row.len()
        invariant
            w <= row@.len(),
            forall|k: int| 0 <= k < w ==> #[trigger] row@[k] == 0,
        decreases row@.len() - w,
    {
        if row[w] > 0 {
            assert(row@[w as int] > 0);
            return true;
        }
        w = w + 1;
    }
    false
}

proof fn lemma_candidates(counts: Seq<Vec<usize>>)
    ensures
        candidates(counts).len() <= counts.len(),
        forall|i: int|
            0 <= i < candidates(counts).len() ==> 0 <= #[trigger] candidates(counts)[i]
                < counts.len() && matched(counts[candidates(counts)[i]]),
        forall|i: int, j: int|
            0 <= i < j < candidates(counts).len() ==> #[trigger] candidates(counts)[i]
                < #[trigger] candidates(counts)[j],
        forall|d: int|
            0 <= d < counts.len() && matched(#[trigger] counts[d]) ==> candidates(
                counts,
            ).contains(d),
    decreases counts.len(),
{
    if counts.len() > 0 {
        let front = counts.drop_last();
        lemma_candidates(front);
        let before = candidates(front);
        let c = candidates(counts);
        assert forall|i: int| 0 <= i < c.len() implies 0 <= #[trigger] c[i] < counts.len()
            && matched(counts[c[i]]) by {
            if i < before.len() {
                assert(c[i] == before[i]);
                assert(front[before[i]] == counts[before[i]]);
            }
        }
        assert forall|d: int| 0 <= d < counts.len() && matched(
            #[trigger] counts[d],
        ) implies c.contains(d) by {
            if d < front.len() {
                assert(front[d] == counts[d]);
                let i = before.index_of(d);
                assert(c[i] == d);
            } else {
                assert(c[before.len() as int] == d);
            }
        }
    }
}

/// The results of a search, from the score of each text that was searched. A text that was
/// searched is a candidate exactly when it has a word of the query.
pub fn search(
    files: &Vec<IndexedFile>,
    stats: &Stats,
    scores: &Vec<u32>,
    top: usize,
) -> (r: Vec<SearchHit>)
    requires
        scores@.len() == stats.docs@.len(),
        stats.counts@.len() == stats.docs@.len(),
        forall|d: int| 0 <= d < stats.docs@.len() ==> #[trigger] stats.docs@[d] < files@.len(),
    ensures
        shown_hits(r@) == hits_at(
            best(stats.counts@, scores@, top as nat),
            docs(files@),
            tally::indices(stats.docs@),
            scores@,
            texts(stats.words@),
        ),
{
    let ghost counts = stats.counts@;
    let ghost c = candidates(counts);
    let mut places: Vec<usize> = Vec::new();
    let mut keys: Vec<u64> = Vec::new();
    let mut i: usize = 0;
    assert(tally::indices(places@) =~= Seq::empty());
    while i < scores.len()
        invariant
            i <= scores@.len(),
            counts == stats.counts@,
            scores@.len() == counts.len(),
            tally::indices(places@) == candidates(counts.take(i as int)),
            keys@.len() == places@.len(),
            forall|k: int| 0 <= k < places@.len() ==> #[trigger] places@[k] < i,
            forall|k: int|
                0 <= k < keys@.len() ==> #[trigger] keys@[k] == scores@[places@[k] as int] as u64,
        decreases scores@.len() - i,
    {
        proof {
            assert(counts.take(i + 1).drop_last() =~= counts.take(i as int));
            assert(counts.take(i + 1).last() == counts[i as int]);
        }
        if is_matched(&stats.counts[i]) {
            let ghost had = places@;
            places.push(i);
            keys.push(scores[i] as u64);
            assert(tally::indices(places@) =~= tally::indices(had).push(i as int));
        }
        i = i + 1;
    }
    proof {
        assert(counts.take(i as int) =~= counts);
        assert forall|k: int| 0 <= k < places@.len() implies c[k] == #[trigger] places@[k] by {
            assert(tally::indices(places@)[k] == places@[k]);
        }
        assert(keys@ =~= candidate_scores(counts, scores@));
        assert(c.len() == keys@.len());
    }
    let order = tally::rank(&keys);
    let asked: usize = if top > 1 {
        top
    } else {
        1
    };
    let n: usize = if keys.len() < asked {
        keys.len()
    } else {
        asked
    };
    let ghost want = hits_at(
        best(counts, scores@, top as nat),
        docs(files@),
        tally::indices(stats.docs@),
        scores@,
        texts(stats.words@),
    );
    let mut out: Vec<SearchHit> = Vec::new();
    let mut j: usize = 0;
    while j < n
        invariant
            j <= n <= keys@.len(),
            n == want.len(),
            counts == stats.counts@,
            c == candidates(counts),
            keys@ == candidate_scores(counts, scores@),
            order@.len() == keys@.len(),
            places@.len() == keys@.len(),
            c.len() == keys@.len(),
            scores@.len() == stats.docs@.len(),
            want == hits_at(
                best(counts, scores@, top as nat),
                docs(files@),
                tally::indices(stats.docs@),
                scores@,
                texts(stats.words@),
            ),
            tally::indices(order@) == tally::ranked(keys@, keys@.len()),
            forall|k: int| 0 <= k < order@.len() ==> #[trigger] order@[k] < keys@.len(),
            forall|k: int| 0 <= k < places@.len() ==> c[k] == #[trigger] places@[k],
            forall|k: int| 0 <= k < places@.len() ==> #[trigger] places@[k] < scores@.len(),
            forall|d: int| 0 <= d < stats.docs@.len() ==> #[trigger] stats.docs@[d] < files@.len(),
            out@.len() == j,
            forall|k: int| 0 <= k < j ==> (#[trigger] out@[k]).shows() == want[k],
        decreases n - j,
    {
        let at: usize = order[j];
        let d: usize = places[at];
        let f = &files[stats.docs[d]];
        proof {
            assert(tally::indices(order@)[j as int] == at);
            assert(best(counts, scores@, top as nat)[j as int] == c[at as int]);
            assert(tally::indices(stats.docs@)[d as int] == stats.docs@[d as int]);
            assert(docs(files@)[stats.docs@[d as int] as int] == f.doc());
        }
        out.push(
            SearchHit {
                path: text::copy(f.path.as_str()),
                score: scores[d],
                bytes: f.bytes,
                snippet: snippet_around_hit(f.text.as_str(), &stats.words, SNIPPET_LINES),
            },
        );
        j = j + 1;
    }
    assert(shown_hits(out@) =~= want);
    out
}

/// Does a text have a word of the query?
pub open spec fn has_word(d: Doc, query: Seq<char>) -> bool {
    exists|w: Seq<char>| #[trigger] terms(query).contains(w) && terms(d.text).contains(w)
}

proof fn lemma_counted(v: Seq<Seq<char>>, x: Seq<char>)
    ensures
        count_of(v, x) > 0 <==> v.contains(x),
    decreases v.len(),
{
    if v.len() > 0 {
        let front = v.drop_last();
        lemma_counted(front, x);
        if v.contains(x) && v.last() != x {
            let i = v.index_of(x);
            assert(front[i] == x);
        }
        if front.contains(x) {
            let i = front.index_of(x);
            assert(v[i] == x);
        }
        if v.last() == x {
            assert(v[v.len() - 1] == x);
        }
    }
}

/// The texts that are searched are those of the session, each once and in order.
pub proof fn lemma_selected(ds: Seq<Doc>, session: Option<Seq<char>>)
    ensures
        forall|i: int|
            0 <= i < selected(ds, session).len() ==> 0 <= #[trigger] selected(ds, session)[i]
                < ds.len() && in_session(ds[selected(ds, session)[i]], session),
        forall|i: int, j: int|
            0 <= i < j < selected(ds, session).len() ==> #[trigger] selected(ds, session)[i]
                < #[trigger] selected(ds, session)[j],
        forall|p: int|
            0 <= p < ds.len() && in_session(#[trigger] ds[p], session) ==> selected(
                ds,
                session,
            ).contains(p),
    decreases ds.len(),
{
    if ds.len() > 0 {
        let front = ds.drop_last();
        lemma_selected(front, session);
        let before = selected(front, session);
        let all = selected(ds, session);
        assert forall|i: int| 0 <= i < all.len() implies 0 <= #[trigger] all[i] < ds.len()
            && in_session(ds[all[i]], session) by {
            if i < before.len() {
                assert(all[i] == before[i]);
                assert(front[before[i]] == ds[before[i]]);
            }
        }
        assert forall|p: int| 0 <= p < ds.len() && in_session(
            #[trigger] ds[p],
            session,
        ) implies all.contains(p) by {
            if p < front.len() {
                assert(front[p] == ds[p]);
                let i = before.index_of(p);
                assert(all[i] == p);
            } else {
                assert(all[before.len() as int] == p);
            }
        }
    }
}

/// A text that was searched is a candidate exactly when it has a word of the query.
pub proof fn lemma_candidate_has_word(
    stats: Stats,
    query: Seq<char>,
    ds: Seq<Doc>,
    session: Option<Seq<char>>,
    d: int,
)
    requires
        stats.counts_for(query, ds, session),
        0 <= d < stats.docs@.len(),
    ensures
        matched(stats.counts@[d]) <==> has_word(ds[stats.docs@[d] as int], query),
{
    let row = stats.counts@[d];
    let found = terms(ds[stats.docs@[d] as int].text);
    let words = query_words(query);
    snapshot::lemma_deduped(terms(query));
    assert(texts(stats.words@).len() == stats.words@.len());
    if matched(row) {
        let w = choose|w: int| 0 <= w < row@.len() && #[trigger] row@[w] > 0;
        assert(stats.counts@[d]@[w] == count_of(found, words[w]));
        lemma_counted(found, words[w]);
        assert(words.contains(words[w]));
        assert(terms(query).contains(words[w]));
    }
    if has_word(ds[stats.docs@[d] as int], query) {
        let x = choose|x: Seq<char>| #[trigger] terms(query).contains(x) && found.contains(x);
        assert(words.contains(x));
        let w = words.index_of(x);
        assert(stats.counts@[d]@[w] == count_of(found, words[w]));
        lemma_counted(found, x);
        assert(row@[w] > 0);
    }
}

/// The texts of the results: each is a text of the session that has a word of the query, none
/// is there twice, and where there is room for all such texts, all of them are there.
pub proof fn lemma_results(
    stats: Stats,
    query: Seq<char>,
    ds: Seq<Doc>,
    session: Option<Seq<char>>,
    scores: Seq<u32>,
    top: nat,
)
    requires
        stats.counts_for(query, ds, session),
    ensures
        forall|i: int|
            0 <= i < best(stats.counts@, scores, top).len() ==> {
                let d = #[trigger] best(stats.counts@, scores, top)[i];
                &&& 0 <= d < stats.docs@.len()
                &&& in_session(ds[stats.docs@[d] as int], session)
                &&& has_word(ds[stats.docs@[d] as int], query)
            },
        forall|i: int, j: int|
            0 <= i < j < best(stats.counts@, scores, top).len() ==> stats.docs@[#[trigger] best(
                stats.counts@,
                scores,
                top,
            )[i]] != stats.docs@[#[trigger] best(stats.counts@, scores, top)[j]],
        candidates(stats.counts@).len() <= top ==> forall|p: int|
            0 <= p < ds.len() && in_session(#[trigger] ds[p], session) && has_word(ds[p], query)
                ==> exists|i: int|
                0 <= i < best(stats.counts@, scores, top).len() && stats.docs@[#[trigger] best(
                    stats.counts@,
                    scores,
                    top,
                )[i]] == p,
{
    let counts = stats.counts@;
    let c = candidates(counts);
    let keys = candidate_scores(counts, scores);
    let order = tally::ranked(keys, c.len());
    let b = best(counts, scores, top);
    let chosen = selected(ds, session);
    lemma_candidates(counts);
    lemma_selected(ds, session);
    tally::lemma_ranked(keys, c.len());
    assert forall|d: int| 0 <= d < stats.docs@.len() implies #[trigger] stats.docs@[d]
        == chosen[d] by {
        assert(tally::indices(stats.docs@)[d] == stats.docs@[d]);
    }
    assert(chosen.len() == stats.docs@.len());
    assert forall|i: int| 0 <= i < b.len() implies {
        let d = #[trigger] b[i];
        &&& 0 <= d < stats.docs@.len()
        &&& in_session(ds[stats.docs@[d] as int], session)
        &&& has_word(ds[stats.docs@[d] as int], query)
    } by {
        let d = c[order[i]];
        assert(stats.docs@[d] == chosen[d]);
        lemma_candidate_has_word(stats, query, ds, session, d);
    }
    assert forall|i: int, j: int| 0 <= i < j < b.len() implies stats.docs@[#[trigger] b[i]]
        != stats.docs@[#[trigger] b[j]] by {
        assert(order[i] != order[j]);
        assert(c[order[i]] != c[order[j]]);
        assert(stats.docs@[b[i]] == chosen[b[i]]);
        assert(stats.docs@[b[j]] == chosen[b[j]]);
    }
    if c.len() <= top {
        assert forall|p: int|
            0 <= p < ds.len() && in_session(#[trigger] ds[p], session) && has_word(
                ds[p],
                query,
            ) implies exists|i: int| 0 <= i < b.len() && stats.docs@[#[trigger] b[i]] == p by {
            let d = chosen.index_of(p);
            assert(stats.docs@[d] == chosen[d]);
            lemma_candidate_has_word(stats, query, ds, session, d);
            assert(c.contains(d));
            let k = c.index_of(d);
            assert(order.contains(k));
            let i = order.index_of(k);
            assert(b[i] == d);
        }
    }
}

/// Results come in descending order of their scores, and no more of them than were asked for,
/// or one.
pub proof fn lemma_hits_descend(
    counts: Seq<Vec<usize>>,
    scores: Seq<u32>,
    top: nat,
    i: int,
    j: int,
)
    requires
        0 <= i <= j < best(counts, scores, top).len(),
    ensures
        scores[best(counts, scores, top)[i]] >= scores[best(counts, scores, top)[j]],
        best(counts, scores, top).len() <= top || best(counts, scores, top).len() == 1,
{
    let keys = candidate_scores(counts, scores);
    let c = candidates(counts);
    tally::lemma_ranked(keys, c.len());
    let order = tally::ranked(keys, c.len());
    assert(keys[order[i]] == scores[c[order[i]]] as u64);
    assert(keys[order[j]] == scores[c[order[j]]] as u64);
    if i < j {
        assert(keys[order[i]] >= keys[order[j]]);
    }
}

/// A query without words has no results.
pub proof fn lemma_no_words(
    stats: Stats,
    query: Seq<char>,
    ds: Seq<Doc>,
    session: Option<Seq<char>>,
    scores: Seq<u32>,
    top: nat,
)
    requires
        stats.counts_for(query, ds, session),
        terms(query).len() == 0,
    ensures
        best(stats.counts@, scores, top).len() == 0,
{
    lemma_results(stats, query, ds, session, scores, top);
    let b = best(stats.counts@, scores, top);
    if b.len() > 0 {
        let d = b[0];
        assert(has_word(ds[stats.docs@[d] as int], query));
    }
}

proof fn lemma_first_hit_place(lines: Seq<Seq<char>>, words: Seq<Seq<char>>)
    ensures
        first_hit(lines, words) matches Some(c) ==> c < lines.len() && hit(lines[c as int], words)
            && forall|i: int| 0 <= i < c ==> !hit(#[trigger] lines[i], words),
        first_hit(lines, words) is None ==> forall|i: int|
            0 <= i < lines.len() ==> !hit(#[trigger] lines[i], words),
    decreases lines.len(),
{
    if lines.len() > 0 {
        let front = lines.drop_last();
        lemma_first_hit_place(front, words);
        if let Some(c) = first_hit(front, words) {
            assert(lines[c as int] == front[c as int]);
            assert forall|i: int| 0 <= i < c implies !hit(#[trigger] lines[i], words) by {
                assert(lines[i] == front[i]);
            }
        } else {
            assert forall|i: int| 0 <= i < front.len() implies !hit(#[trigger] lines[i], words) by {
                assert(lines[i] == front[i]);
            }
        }
    }
}

/// A line with one of the words in it, in lower case, is a hit, however many words are asked
/// for. Where a text has such a line, the snippet shows the first of them, verbatim, with the
/// lines round it, and says how many more lines there are below.
#[verifier::spinoff_prover]
#[verifier::rlimit(30)]
pub proof fn lemma_snippet_shows_hit(
    text: Seq<char>,
    words: Seq<Seq<char>>,
    pad: nat,
    line: int,
    word: int,
) -> (c: int)
    requires
        0 <= line < text::lines_of(text).len(),
        0 <= word < words.len(),
        holds(lowered(text::lines_of(text)[line]), words[word]),
    ensures
        0 <= c <= line,
        exists|w: int|
            0 <= w < words.len() && holds(
                lowered(text::lines_of(text)[c]),
                #[trigger] words[w],
            ),
        forall|i: int, w: int|
            0 <= i < c && 0 <= w < words.len() ==> !holds(
                lowered(#[trigger] text::lines_of(text)[i]),
                #[trigger] words[w],
            ),
        holds(snippet(text, words, pad), text::lines_of(text)[c]),
        forall|i: int|
            0 <= i < text::lines_of(text).len() && c - pad <= i <= c + pad ==> holds(
                snippet(text, words, pad),
                #[trigger] text::lines_of(text)[i],
            ),
        c + pad + 1 < text::lines_of(text).len() ==> holds(
            snippet(text, words, pad),
            text::lines_of(text)[c + pad] + "\n…["@ + decimal_of(
                (text::lines_of(text).len() - (c + pad + 1)) as nat,
            ) + " lines below]…"@,
        ),
        c > pad ==> text::begins(
            snippet(text, words, pad),
            "…["@ + decimal_of(pad) + " lines above]…\n"@,
        ),
        c <= pad && c + pad + 1 >= text::lines_of(text).len() ==> snippet(text, words, pad)
            == joined(text::lines_of(text), "\n"@),
{
    let lines = text::lines_of(text);
    assert(hit(lines[line], words));
    lemma_first_hit_place(lines, words);
    let c = first_hit(lines, words)->0 as int;
    assert forall|i: int, w: int| 0 <= i < c && 0 <= w < words.len() implies !holds(
        lowered(#[trigger] lines[i]),
        #[trigger] words[w],
    ) by {
        assert(!hit(lines[i], words));
    }
    let s = window_start(c as nat, pad);
    let e = window_end(c as nat, pad, lines.len());
    let part = lines.subrange(s as int, e as int);
    let above = if s > 0 {
        "…["@ + decimal_of((c - s) as nat) + " lines above]…\n"@
    } else {
        Seq::empty()
    };
    let middle = joined(part, "\n"@);
    let below = if e < lines.len() {
        "\n…["@ + decimal_of((lines.len() - e) as nat) + " lines below]…"@
    } else {
        Seq::empty()
    };
    assert(snippet(text, words, pad) == above + middle + below);
    text::lemma_middle(above, middle, below);
    assert((above + middle + below).subrange(0, above.len() as int) =~= above);
    assert forall|i: int|
        0 <= i < lines.len() && c - pad <= i <= c + pad implies holds(
        snippet(text, words, pad),
        #[trigger] lines[i],
    ) by {
        assert(part[i - s] == lines[i]);
        text::lemma_part_within(part, "\n"@, i - s);
        text::lemma_has_within(snippet(text, words, pad), middle, lines[i]);
    }
    if e < lines.len() {
        let last = lines[c + pad];
        assert(part.last() == last);
        lemma_joined_ends(part, "\n"@);
        let front = middle.take(middle.len() - last.len());
        assert(middle =~= front + last);
        lemma_end_of_window(above, front, last, "\n…["@, decimal_of((lines.len() - e) as nat), " lines below]…"@);
    }
    if s == 0 && e == lines.len() {
        assert(part =~= lines);
        assert(above + middle + below =~= middle);
    }
    c
}

proof fn lemma_joined_ends(parts: Seq<Seq<char>>, sep: Seq<char>)
    requires
        parts.len() > 0,
    ensures
        joined(parts, sep).len() >= parts.last().len(),
        joined(parts, sep).skip(joined(parts, sep).len() - parts.last().len()) == parts.last(),
{
    let all = joined(parts, sep);
    if parts.len() == 1 {
        assert(all.skip(0) =~= all);
    } else {
        assert(all.skip(all.len() - parts.last().len()) =~= parts.last());
    }
}

proof fn lemma_end_of_window(
    above: Seq<char>,
    front: Seq<char>,
    last: Seq<char>,
    a: Seq<char>,
    b: Seq<char>,
    c: Seq<char>,
)
    ensures
        holds(above + (front + last) + (a + b + c), last + a + b + c),
{
    let note = a + b + c;
    let shown = last + a + b + c;
    assert(shown =~= last + note);
    assert(above + (front + last) + note =~= above + front + (last + note) + Seq::empty());
    text::lemma_middle(above + front, last + note, Seq::empty());
}

/// Where no line holds any of the words, the snippet is the beginning of the text, up to six
/// hundred characters.
pub proof fn lemma_snippet_without_hit(text: Seq<char>, words: Seq<Seq<char>>, pad: nat)
    requires
        forall|i: int, w: int|
            0 <= i < text::lines_of(text).len() && 0 <= w < words.len() ==> !holds(
                lowered(#[trigger] text::lines_of(text)[i]),
                #[trigger] words[w],
            ),
    ensures
        text.len() <= 600 ==> snippet(text, words, pad) == text,
        text.len() > 600 ==> snippet(text, words, pad) == text.take(600),
{
    let lines = text::lines_of(text);
    lemma_first_hit_place(lines, words);
    if let Some(c) = first_hit(lines, words) {
        assert(hit(lines[c as int], words));
        let w = choose|w: int|
            0 <= w < words.len() && holds(lowered(lines[c as int]), #[trigger] words[w]);
        assert(holds(lowered(lines[c as int]), words[w]));
    }
}

proof fn lemma_word_pieces_nonempty(s: Seq<char>)
    ensures
        word_pieces(s).len() > 0,
    decreases s.len(),
{
    if s.len() > 0 {
        lemma_word_pieces_nonempty(s.drop_last());
    }
}

proof fn lemma_word_pieces_concat(a: Seq<char>, c: char, b: Seq<char>)
    requires
        !word_char(c),
    ensures
        word_pieces(a + seq![c] + b) == word_pieces(a) + word_pieces(b),
    decreases b.len(),
{
    let s = a + seq![c] + b;
    if b.len() == 0 {
        assert(s.drop_last() =~= a);
        assert(s.last() == c);
        assert(word_pieces(s) =~= word_pieces(a) + word_pieces(b));
    } else {
        lemma_word_pieces_concat(a, c, b.drop_last());
        lemma_word_pieces_nonempty(b.drop_last());
        assert(s.drop_last() =~= a + seq![c] + b.drop_last());
        assert(s.last() == b.last());
        assert(word_pieces(s) =~= word_pieces(a) + word_pieces(b));
    }
}

proof fn lemma_word_piece_whole(s: Seq<char>)
    requires
        forall|i: int| 0 <= i < s.len() ==> word_char(#[trigger] s[i]),
    ensures
        word_pieces(s) == seq![s],
    decreases s.len(),
{
    if s.len() > 0 {
        let t = s.drop_last();
        assert forall|i: int| 0 <= i < t.len() implies word_char(#[trigger] t[i]) by {
            assert(t[i] == s[i]);
        }
        lemma_word_piece_whole(t);
        assert(word_char(s[s.len() - 1]));
        assert(t.push(s.last()) =~= s);
        assert(word_pieces(s) =~= seq![s]);
    } else {
        assert(s =~= Seq::empty());
    }
}

proof fn lemma_long_words_concat(a: Seq<Seq<char>>, b: Seq<Seq<char>>)
    ensures
        long_words(a + b) == long_words(a) + long_words(b),
    decreases b.len(),
{
    if b.len() == 0 {
        assert(a + b =~= a);
        assert(long_words(a) + long_words(b) =~= long_words(a));
    } else {
        lemma_long_words_concat(a, b.drop_last());
        assert((a + b).drop_last() =~= a + b.drop_last());
        assert((a + b).last() == b.last());
        assert(long_words(a + b) =~= long_words(a) + long_words(b));
    }
}

/// A character that is neither a letter, a digit nor an underscore parts the words: those on
/// its left come first, then those on its right.
pub proof fn lemma_terms_parted(s: Seq<char>, left: Seq<char>, c: char, right: Seq<char>)
    requires
        !alphanumeric(c),
        c != '_',
        lowered(s) == lowered(left) + seq![c] + lowered(right),
    ensures
        terms(s) == terms(left) + terms(right),
{
    lemma_word_pieces_concat(lowered(left), c, lowered(right));
    lemma_long_words_concat(word_pieces(lowered(left)), word_pieces(lowered(right)));
}

/// A text of nothing but letters, digits and underscores is one word, in lower case; it is
/// left out where it has fewer than two bytes.
pub proof fn lemma_terms_word(s: Seq<char>)
    requires
        forall|i: int|
            0 <= i < lowered(s).len() ==> alphanumeric(#[trigger] lowered(s)[i]) || lowered(s)[i] == '_',
    ensures
        byte_count(lowered(s)) >= 2 ==> terms(s) == seq![lowered(s)],
        byte_count(lowered(s)) < 2 ==> terms(s).len() == 0,
{
    lemma_word_piece_whole(lowered(s));
    let one = seq![lowered(s)];
    assert(one.drop_last() =~= Seq::empty());
    assert(one.last() == lowered(s));
    reveal_with_fuel(long_words, 2);
    assert(long_words(one) =~= if byte_count(lowered(s)) >= 2 {
        one
    } else {
        Seq::empty()
    });
}

/// Counts add up over lists one behind the other, and a list of one word counts it once.
pub proof fn lemma_counts_add(a: Seq<Seq<char>>, b: Seq<Seq<char>>, x: Seq<char>)
    ensures
        count_of(a + b, x) == count_of(a, x) + count_of(b, x),
        count_of(seq![x], x) == 1,
        !a.contains(x) ==> count_of(a, x) == 0,
    decreases b.len(),
{
    assert(count_of(seq![x], x) == 1) by {
        reveal_with_fuel(count_of, 2);
        assert(seq![x].drop_last() =~= Seq::empty());
        assert(seq![x].last() == x);
    }
    lemma_counted(a, x);
    if b.len() == 0 {
        assert(a + b =~= a);
    } else {
        lemma_counts_add(a, b.drop_last(), x);
        assert((a + b).drop_last() =~= a + b.drop_last());
        assert((a + b).last() == b.last());
    }
}

/// A word's document frequency is the number of texts in which it stands at all: it adds up
/// over collections one behind the other, and one text counts once or not.
pub proof fn lemma_frequencies_add(a: Seq<Vec<usize>>, b: Seq<Vec<usize>>, w: int)
    ensures
        frequency(a + b, w) == frequency(a, w) + frequency(b, w),
        b.len() == 1 ==> frequency(b, w) == (if b[0]@[w] > 0 {
            1nat
        } else {
            0nat
        }),
    decreases b.len(),
{
    if b.len() == 0 {
        assert(a + b =~= a);
    } else {
        lemma_frequencies_add(a, b.drop_last(), w);
        assert((a + b).drop_last() =~= a + b.drop_last());
        assert((a + b).last() == b.last());
        if b.len() == 1 {
            assert(frequency(b.drop_last(), w) == 0);
        }
    }
}

/// As many texts are shown as are asked for, at least one, or all that have a word of the
/// query. None is shown twice; whatever is left out scores no more than anything shown; of
/// two with the same score the one that was found first comes first.
#[verifier::spinoff_prover]
#[verifier::rlimit(30)]
pub proof fn lemma_best_chosen(counts: Seq<Vec<usize>>, scores: Seq<u32>, top: nat)
    requires
        scores.len() == counts.len(),
    ensures
        ({
            let shown = best(counts, scores, top);
            &&& shown.len() <= top || shown.len() == 1
            &&& forall|i: int, j: int|
                0 <= i < j < shown.len() ==> #[trigger] scores[shown[i]] > #[trigger] scores[shown[j]]
                    || scores[shown[i]] == scores[shown[j]] && shown[i] < shown[j]
            &&& forall|i: int|
                0 <= i < shown.len() ==> 0 <= #[trigger] shown[i] < counts.len() && matched(
                    counts[shown[i]],
                )
            &&& forall|d: int, i: int|
                0 <= d < counts.len() && matched(#[trigger] counts[d]) && !shown.contains(d) && 0
                    <= i < shown.len() ==> scores[#[trigger] shown[i]] >= scores[d]
            &&& forall|d: int|
                0 <= d < counts.len() && matched(#[trigger] counts[d]) && !shown.contains(d)
                    ==> shown.len() >= top && shown.len() >= 1
        }),
{
    let c = candidates(counts);
    let keys = candidate_scores(counts, scores);
    let order = tally::ranked(keys, c.len());
    let shown = best(counts, scores, top);
    lemma_candidates(counts);
    tally::lemma_ranked(keys, c.len());
    assert forall|i: int| 0 <= i < shown.len() implies 0 <= #[trigger] shown[i] < counts.len()
        && matched(counts[shown[i]]) by {
        assert(shown[i] == c[order[i]]);
    }
    assert forall|i: int, j: int| 0 <= i < j < shown.len() implies #[trigger] scores[shown[i]]
        > #[trigger] scores[shown[j]] || scores[shown[i]] == scores[shown[j]] && shown[i]
        < shown[j] by {
        assert(keys[order[i]] > keys[order[j]] || keys[order[i]] == keys[order[j]] && order[i]
            < order[j]);
        assert(keys[order[i]] == scores[c[order[i]]]);
        assert(keys[order[j]] == scores[c[order[j]]]);
    }
    assert forall|d: int|
        0 <= d < counts.len() && matched(#[trigger] counts[d]) && !shown.contains(d) implies
        shown.len() >= top && shown.len() >= 1 && forall|i: int|
        0 <= i < shown.len() ==> scores[#[trigger] shown[i]] >= scores[d] by {
        assert(c.contains(d));
        let k = c.index_of(d);
        assert(order.contains(k));
        let p = order.index_of(k);
        assert(c[order[p]] == d);
        if p < shown.len() {
            assert(shown[p] == d);
        }
        assert forall|i: int| 0 <= i < shown.len() implies scores[#[trigger] shown[i]]
            >= scores[d] by {
            assert(keys[order[i]] == scores[c[order[i]]]);
            assert(keys[order[p]] == scores[c[order[p]]]);
            assert(keys[order[i]] >= keys[order[p]]);
        }
    }
}

/// A result shows the path and the size of its text, its own score, and the snippet of it.
pub proof fn lemma_hit_shows(
    places: Seq<int>,
    ds: Seq<Doc>,
    chosen: Seq<int>,
    scores: Seq<u32>,
    words: Seq<Seq<char>>,
    i: int,
)
    requires
        0 <= i < places.len(),
    ensures
        hits_at(places, ds, chosen, scores, words).len() == places.len(),
        hits_at(places, ds, chosen, scores, words)[i].path == ds[chosen[places[i]]].path,
        hits_at(places, ds, chosen, scores, words)[i].bytes == ds[chosen[places[i]]].bytes,
        hits_at(places, ds, chosen, scores, words)[i].score == scores[places[i]],
        hits_at(places, ds, chosen, scores, words)[i].snippet == snippet(
            ds[chosen[places[i]]].text,
            words,
            6,
        ),
{
}

/// A text is searched by its extension and its size: one with something in it, up to the
/// limit, whatever its name and place.
pub proof fn lemma_indexed(dir: Seq<char>, stem: Seq<char>, ext: Seq<char>, bytes: usize)
    requires
        dir.len() > 0,
        dir.last() != '/',
        stem.len() > 0,
        !stem.contains('/'),
        ext.len() > 0,
        !ext.contains('/'),
        !ext.contains('.'),
    ensures
        indexed(path::joined_path(dir, stem + seq!['.'] + ext), bytes) <==> ext == "txt"@ && 1
            <= bytes <= 1048576,
{
    path::lemma_extension(dir, stem, ext);
}

/// Without a session every text is searched, with one exactly its own.
pub proof fn lemma_searched(ds: Seq<Doc>, session: Seq<char>, p: int)
    ensures
        selected(ds, None).contains(p) <==> 0 <= p < ds.len(),
        selected(ds, Some(session)).contains(p) <==> 0 <= p < ds.len() && ds[p].session == session,
{
    lemma_selected(ds, None);
    lemma_selected(ds, Some(session));
    let all = selected(ds, None);
    let own = selected(ds, Some(session));
    if 0 <= p < ds.len() {
        assert(in_session(ds[p], None));
        assert(in_session(ds[p], Some(session)) <==> ds[p].session == session);
    }
    if all.contains(p) {
        let i = all.index_of(p);
        assert(all[i] == p);
    }
    if own.contains(p) {
        let i = own.index_of(p);
        assert(own[i] == p);
    }
}

/// The words of a query are those of its text, each once.
pub proof fn lemma_query_words(query: Seq<char>, w: Seq<char>)
    ensures
        query_words(query).contains(w) <==> terms(query).contains(w),
        query_words(query).no_duplicates(),
{
    snapshot::lemma_deduped(terms(query));
}

} // verus!
