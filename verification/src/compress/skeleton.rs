//! Skeleton compression: keep the head and tail of a file, replace the middle with
//! a marker that tells the model how to retrieve the omitted lines.
//! Pure function: the same input always produces the same bytes.

use vstd::prelude::*;

use crate::config::{standard_limits, Limits};
use crate::number;
use crate::number::{decimal_of, right_aligned};
use crate::text;
use crate::text::{found_at, holds, line_count, pieces, texts, without_cr};

verus! {

/// `s` without one line feed at its end.
pub open spec fn without_lf(s: Seq<char>) -> Seq<char> {
    if s.len() > 0 && s.last() == '\n' {
        s.drop_last()
    } else {
        s
    }
}

/// The lines of a file, without their endings.
pub open spec fn file_lines(text: Seq<char>) -> Seq<Seq<char>> {
    Seq::new(line_count(text), |i: int| without_cr(pieces(text, '\n')[i]))
}

/// Strip one line ending. Order matters: `\r\n` must drop `\n` first, then `\r`
/// (a `\r`-only suffix check on `"…\r\n"` would leave the `\r` behind).
pub fn strip_nl(s: &str) -> (r: String)
    ensures
        r@ == without_cr(without_lf(s@)),
{
    let v = text::chars(s);
    let n = v.len();
    if n > 0 && v[n - 1] == '\n' {
        let body = text::slice(&v, 0, n - 1);
        assert(body@ =~= s@.drop_last());
        text::strip_cr(body.as_str())
    } else {
        text::strip_cr(s)
    }
}

/// The first line of a skeleton.
pub open spec fn head_line(orig_rel: Seq<char>, n: nat, lim: Limits) -> Seq<char> {
    "[TSK SKELETON of "@ + orig_rel + " | "@ + decimal_of(n) + " lines total | head "@ + decimal_of(
        lim.skeleton_head as nat,
    ) + " + tail "@ + decimal_of(lim.skeleton_tail as nat) + " | TSK v1]\n"@
}

/// Writes the first line of a skeleton.
pub fn write_head(out: &mut String, orig_rel: &str, n: usize, limits: &Limits)
    ensures
        final(out)@ == old(out)@ + head_line(orig_rel@, n as nat, *limits),
{
    let mut s = text::copy("[TSK SKELETON of ");
    s.append(orig_rel);
    s.append(" | ");
    s.append(number::decimal(n as u64).as_str());
    s.append(" lines total | head ");
    s.append(number::decimal(limits.skeleton_head as u64).as_str());
    s.append(" + tail ");
    s.append(number::decimal(limits.skeleton_tail as u64).as_str());
    s.append(" | TSK v1]\n");
    out.append(s.as_str());
}

/// 6-column right-aligned number, TAB, original text; always one line.
pub open spec fn numbered(num: nat, line: Seq<char>) -> Seq<char> {
    right_aligned(decimal_of(num), 6) + "\t"@ + line + (if line.len() > 0 && line.last() == '\n' {
        ""@
    } else {
        "\n"@
    })
}

/// 6-column right-aligned number, TAB, original text.
pub fn emit_line(out: &mut String, num: usize, line: &str)
    ensures
        final(out)@ == old(out)@ + numbered(num as nat, line@),
{
    let mut s = number::align_right(number::decimal(num as u64).as_str(), 6);
    s.append("\t");
    s.append(line);
    let v = text::chars(line);
    if v.len() == 0 || v[v.len() - 1] != '\n' {
        s.append("\n");
    } else {
        s.append("");
    }
    out.append(s.as_str());
}

/// Lines `from + 1` to `to`, numbered.
pub open spec fn numbered_lines(lines: Seq<Seq<char>>, from: nat, to: nat) -> Seq<char>
    decreases to,
{
    if to <= from {
        Seq::empty()
    } else {
        numbered_lines(lines, from, (to - 1) as nat) + numbered(to, lines[to - 1])
    }
}

/// The line that stands for the omitted ones, `from` to `to`, and says how to get them.
pub open spec fn marker_line(orig_rel: Seq<char>, from: nat, to: nat) -> Seq<char> {
    "[TSK omitted lines "@ + decimal_of(from) + ".."@ + decimal_of(to) + ". Full file: Read "@
        + orig_rel + " with offset/limit, or Grep <pattern> "@ + orig_rel + "]\n"@
}

/// The skeleton of a text; a text too short to gain from one has none.
pub open spec fn skeleton_of(text: Seq<char>, orig_rel: Seq<char>, lim: Limits) -> Option<
    Seq<char>,
> {
    let lines = file_lines(text);
    let n = lines.len();
    if n < lim.min_lines || lim.skeleton_head + lim.skeleton_tail >= n {
        None
    } else {
        Some(
            head_line(orig_rel, n, lim) + numbered_lines(lines, 0, lim.skeleton_head as nat) + marker_line(
                orig_rel,
                (lim.skeleton_head + 1) as nat,
                (n - lim.skeleton_tail) as nat,
            ) + numbered_lines(lines, (n - lim.skeleton_tail) as nat, n),
        )
    }
}

/// The lines of a file, without their endings.
fn lines_of_file(text: &str) -> (r: Vec<String>)
    ensures
        texts(r@) == file_lines(text@),
{
    let p = text::split(text, '\n');
    let mut out: Vec<String> = Vec::new();
    let mut i: usize = 0;
    proof {
        text::lemma_pieces_nonempty(text@, '\n');
        text::lemma_pieces_clean(text@, '\n');
        assert(texts(p@).len() == p@.len());
    }
    let last = p.len() - 1;
    assert(texts(p@).last() == p@[last as int]@);
    let n = if p[last].as_str().is_empty() {
        last
    } else {
        p.len()
    };
    while i < n
        invariant
            i <= n <= p@.len(),
            n == line_count(text@),
            texts(p@) == pieces(text@, '\n'),
            forall|k: int|
                0 <= k < pieces(text@, '\n').len() ==> !(#[trigger] pieces(text@, '\n')[k]).contains(
                    '\n',
                ),
            out@.len() == i,
            forall|k: int| 0 <= k < i ==> (#[trigger] out@[k])@ == file_lines(text@)[k],
        decreases n - i,
    {
        proof {
            let piece = pieces(text@, '\n')[i as int];
            assert(texts(p@)[i as int] == p@[i as int]@);
            assert(without_lf(piece) == piece) by {
                if piece.len() > 0 {
                    assert(piece[piece.len() - 1] == piece.last());
                }
            }
        }
        out.push(strip_nl(p[i].as_str()));
        i = i + 1;
    }
    assert(texts(out@) =~= file_lines(text@));
    out
}

/// The skeleton of `text`: its first and last lines, numbered, round a marker that names
/// the omitted ones. `None` where the text is too short.
pub fn skeleton(text: &str, orig_rel: &str) -> (r: Option<String>)
    ensures
        text::content(r) == skeleton_of(text@, orig_rel@, standard_limits()),
{
    skeleton_within(text, orig_rel, &Limits::standard())
}

/// The skeleton of `text` within the limits of the run.
pub fn skeleton_within(text: &str, orig_rel: &str, limits: &Limits) -> (r: Option<String>)
    ensures
        text::content(r) == skeleton_of(text@, orig_rel@, *limits),
{
    let lines = lines_of_file(text);
    assert(texts(lines@).len() == lines@.len());
    let n = lines.len();
    let head: usize = limits.skeleton_head;
    let tail: usize = limits.skeleton_tail;
    if n < limits.min_lines || head >= n || tail >= n - head {
        return None;
    }
    let ghost all = file_lines(text@);
    let mut out = String::new();
    write_head(&mut out, orig_rel, n, limits);
    assert(out@ =~= head_line(orig_rel@, n as nat, *limits));
    let ghost start = out@;
    let mut i: usize = 0;
    while i < head
        invariant
            i <= head < n,
            n == lines@.len(),
            texts(lines@) == all,
            out@ == start + numbered_lines(all, 0, i as nat),
        decreases head - i,
    {
        assert(texts(lines@)[i as int] == lines@[i as int]@);
        let ghost before = out@;
        emit_line(&mut out, i + 1, lines[i].as_str());
        assert(out@ =~= start + (numbered_lines(all, 0, i as nat) + numbered(
            (i + 1) as nat,
            all[i as int],
        )));
        i = i + 1;
    }
    let omit_start = head + 1;
    let omit_end = n - tail;
    let mut marker = text::copy("[TSK omitted lines ");
    marker.append(number::decimal(omit_start as u64).as_str());
    marker.append("..");
    marker.append(number::decimal(omit_end as u64).as_str());
    marker.append(". Full file: Read ");
    marker.append(orig_rel);
    marker.append(" with offset/limit, or Grep <pattern> ");
    marker.append(orig_rel);
    marker.append("]\n");
    out.append(marker.as_str());
    let ghost middle = out@;
    i = omit_end;
    assert(numbered_lines(all, i as nat, i as nat) =~= Seq::empty());
    assert(out@ =~= middle + numbered_lines(all, i as nat, i as nat));
    while i < n
        invariant
            omit_end <= i <= n,
            n == lines@.len(),
            texts(lines@) == all,
            out@ == middle + numbered_lines(all, omit_end as nat, i as nat),
        decreases n - i,
    {
        assert(texts(lines@)[i as int] == lines@[i as int]@);
        emit_line(&mut out, i + 1, lines[i].as_str());
        assert(out@ =~= middle + (numbered_lines(all, omit_end as nat, i as nat) + numbered(
            (i + 1) as nat,
            all[i as int],
        )));
        i = i + 1;
    }
    Some(out)
}

proof fn lemma_numbered_line_shown(lines: Seq<Seq<char>>, from: nat, to: nat, i: int)
    requires
        from <= i < to,
    ensures
        holds(numbered_lines(lines, from, to), numbered((i + 1) as nat, lines[i])),
    decreases to,
{
    let before = numbered_lines(lines, from, (to - 1) as nat);
    let whole = numbered_lines(lines, from, to);
    let one = numbered((i + 1) as nat, lines[i]);
    if i == to - 1 {
        assert(whole.subrange(before.len() as int, (before.len() + one.len()) as int) =~= one);
        assert(found_at(whole, one, before.len() as int));
    } else {
        lemma_numbered_line_shown(lines, from, (to - 1) as nat, i);
        let k = choose|k: int| found_at(before, one, k);
        assert(whole.subrange(k, k + one.len()) =~= before.subrange(k, k + one.len()));
        assert(found_at(whole, one, k));
    }
}

/// The head and the tail of the file stand in its skeleton verbatim, under their line
/// numbers.
pub proof fn lemma_ends_kept(text: Seq<char>, orig_rel: Seq<char>, lim: Limits, i: int)
    requires
        skeleton_of(text, orig_rel, lim) is Some,
        0 <= i < lim.skeleton_head || file_lines(text).len() - lim.skeleton_tail <= i < file_lines(
            text,
        ).len(),
    ensures
        holds(skeleton_of(text, orig_rel, lim)->0, numbered((i + 1) as nat, file_lines(text)[i])),
{
    let lines = file_lines(text);
    let n = lines.len();
    let whole = skeleton_of(text, orig_rel, lim)->0;
    let one = numbered((i + 1) as nat, lines[i]);
    let head = head_line(orig_rel, n, lim);
    let front = numbered_lines(lines, 0, lim.skeleton_head as nat);
    let marker = marker_line(
        orig_rel,
        (lim.skeleton_head + 1) as nat,
        (n - lim.skeleton_tail) as nat,
    );
    let back = numbered_lines(lines, (n - lim.skeleton_tail) as nat, n);
    assert(whole == head + front + marker + back);
    if i < lim.skeleton_head {
        lemma_numbered_line_shown(lines, 0, lim.skeleton_head as nat, i);
        let k = choose|k: int| found_at(front, one, k);
        let at = head.len() + k;
        assert(whole.subrange(at, at + one.len()) =~= front.subrange(k, k + one.len()));
        assert(found_at(whole, one, at));
    } else {
        lemma_numbered_line_shown(lines, (n - lim.skeleton_tail) as nat, n, i);
        let k = choose|k: int| found_at(back, one, k);
        let at = head.len() + front.len() + marker.len() + k;
        assert(whole.subrange(at, at + one.len()) =~= back.subrange(k, k + one.len()));
        assert(found_at(whole, one, at));
    }
}

/// The marker that names the omitted lines and the way back to them stands in every
/// skeleton.
pub proof fn lemma_marker_shown(text: Seq<char>, orig_rel: Seq<char>, lim: Limits)
    requires
        skeleton_of(text, orig_rel, lim) is Some,
    ensures
        holds(
            skeleton_of(text, orig_rel, lim)->0,
            marker_line(
                orig_rel,
                (lim.skeleton_head + 1) as nat,
                (file_lines(text).len() - lim.skeleton_tail) as nat,
            ),
        ),
{
    let lines = file_lines(text);
    let n = lines.len();
    let whole = skeleton_of(text, orig_rel, lim)->0;
    let head = head_line(orig_rel, n, lim);
    let front = numbered_lines(lines, 0, lim.skeleton_head as nat);
    let marker = marker_line(
        orig_rel,
        (lim.skeleton_head + 1) as nat,
        (n - lim.skeleton_tail) as nat,
    );
    let at = head.len() + front.len();
    assert(whole.subrange(at as int, (at + marker.len()) as int) =~= marker);
    assert(found_at(whole, marker, at as int));
}

/// The lines of a file grow by one with every line that is added at its end, and that line
/// is kept character for character but for one carriage return at its end.
pub proof fn lemma_file_line_added(a: Seq<char>, line: Seq<char>)
    requires
        a.len() == 0 || a.last() == '\n',
        !line.contains('\n'),
    ensures
        file_lines(a + line + seq!['\n']).len() == file_lines(a).len() + 1,
        file_lines(a + line + seq!['\n']).take(file_lines(a).len() as int) == file_lines(a),
        line.len() == 0 || line.last() != '\r' ==> file_lines(a + line + seq!['\n']).last() == line,
        line.len() > 0 && line.last() == '\r' ==> file_lines(a + line + seq!['\n']).last() + seq![
            '\r',
        ] == line,
        line.len() > 0 ==> file_lines(a + line) == file_lines(a + line + seq!['\n']),
{
    let s = a + line + seq!['\n'];
    text::lemma_piece_added(a, line);
    text::lemma_pieces_nonempty(a, '\n');
    let p = pieces(a, '\n');
    assert(p.drop_last().push(line).last() == line);
    assert(file_lines(s).take(file_lines(a).len() as int) =~= file_lines(a));
    if line.len() > 0 {
        assert(file_lines(a + line) =~= file_lines(s));
        if line.last() == '\r' {
            assert(line.drop_last() + seq!['\r'] =~= line);
        }
    }
}

spec fn shown_line(num: nat, line: Seq<char>) -> Seq<char> {
    right_aligned(decimal_of(num), 6) + "\t"@ + line
}

proof fn lemma_number_clean(n: nat)
    ensures
        !decimal_of(n).contains('\n'),
        !right_aligned(decimal_of(n), 6).contains('\n'),
{
    if decimal_of(n).contains('\n') {
        number::lemma_decimal_digits(n, decimal_of(n).index_of('\n'));
    }
    let r = right_aligned(decimal_of(n), 6);
    number::lemma_aligned(decimal_of(n), 6);
    if r.contains('\n') {
        let i = r.index_of('\n');
        let pad = r.len() - decimal_of(n).len();
        if i >= pad {
            assert(r.skip(pad)[i - pad] == r[i]);
            assert(decimal_of(n)[i - pad] == '\n');
        }
    }
}

proof fn lemma_line_clean(text: Seq<char>, i: int)
    requires
        0 <= i < file_lines(text).len(),
    ensures
        !file_lines(text)[i].contains('\n'),
{
    text::lemma_pieces_clean(text, '\n');
    let p = pieces(text, '\n')[i];
    assert(!p.contains('\n'));
    if file_lines(text)[i].contains('\n') {
        let k = file_lines(text)[i].index_of('\n');
        assert(p[k] == '\n');
    }
}

proof fn lemma_lines_put(a: Seq<char>, text: Seq<char>, from: nat, to: nat)
    requires
        a.len() == 0 || a.last() == '\n',
        from <= to <= file_lines(text).len(),
    ensures
        ({
            let lines = file_lines(text);
            let s = a + numbered_lines(lines, from, to);
            &&& s.len() == 0 || s.last() == '\n'
            &&& pieces(s, '\n').drop_last() == pieces(a, '\n').drop_last() + Seq::new(
                (to - from) as nat,
                |i: int| shown_line((from + i + 1) as nat, lines[from + i]),
            )
        }),
    decreases to,
{
    let lines = file_lines(text);
    let s = a + numbered_lines(lines, from, to);
    if to == from {
        assert(s =~= a);
        assert(pieces(a, '\n').drop_last() =~= pieces(a, '\n').drop_last() + Seq::new(
            0,
            |i: int| shown_line((from + i + 1) as nat, lines[from + i]),
        ));
    } else {
        let m = (to - 1) as nat;
        let t = a + numbered_lines(lines, from, m);
        let line = lines[to - 1];
        let one = shown_line(to, line);
        lemma_lines_put(a, text, from, m);
        lemma_line_clean(text, to - 1);
        lemma_number_clean(to);
        reveal_strlit("\t");
        reveal_strlit("\n");
        assert("\n"@ =~= seq!['\n']);
        text::lemma_lacks_concat(right_aligned(decimal_of(to), 6), "\t"@, '\n');
        text::lemma_lacks_concat(right_aligned(decimal_of(to), 6) + "\t"@, line, '\n');
        if line.len() > 0 {
            assert(line.contains(line.last()));
        }
        assert(numbered(to, line) == one + "\n"@);
        assert(s =~= t + one + seq!['\n']);
        text::lemma_piece_added(t, one);
        text::lemma_pieces_nonempty(t, '\n');
        assert(pieces(s, '\n').drop_last() =~= pieces(t, '\n').drop_last().push(one));
        assert(pieces(s, '\n').drop_last() =~= pieces(a, '\n').drop_last() + Seq::new(
            (to - from) as nat,
            |i: int| shown_line((from + i + 1) as nat, lines[from + i]),
        ));
    }
}

proof fn lemma_head_clean(orig_rel: Seq<char>, n: nat, lim: Limits)
    requires
        !orig_rel.contains('\n'),
    ensures
        head_line(orig_rel, n, lim).len() > 0,
        head_line(orig_rel, n, lim).last() == '\n',
        !head_line(orig_rel, n, lim).drop_last().contains('\n'),
{
    reveal_strlit("[TSK SKELETON of ");
    reveal_strlit(" | ");
    reveal_strlit(" lines total | head ");
    reveal_strlit(" + tail ");
    reveal_strlit(" | TSK v1]\n");
    lemma_number_clean(n);
    lemma_number_clean(lim.skeleton_head as nat);
    lemma_number_clean(lim.skeleton_tail as nat);
    let a = "[TSK SKELETON of "@ + orig_rel;
    let b = a + " | "@;
    let c = b + decimal_of(n);
    let d = c + " lines total | head "@;
    let e = d + decimal_of(lim.skeleton_head as nat);
    let f = e + " + tail "@;
    let g = f + decimal_of(lim.skeleton_tail as nat);
    let last = " | TSK v1]\n"@;
    text::lemma_lacks_concat("[TSK SKELETON of "@, orig_rel, '\n');
    text::lemma_lacks_concat(a, " | "@, '\n');
    text::lemma_lacks_concat(b, decimal_of(n), '\n');
    text::lemma_lacks_concat(c, " lines total | head "@, '\n');
    text::lemma_lacks_concat(d, decimal_of(lim.skeleton_head as nat), '\n');
    text::lemma_lacks_concat(e, " + tail "@, '\n');
    text::lemma_lacks_concat(f, decimal_of(lim.skeleton_tail as nat), '\n');
    text::lemma_lacks_concat(g, last.drop_last(), '\n');
    assert(head_line(orig_rel, n, lim) == g + last);
    assert((g + last).drop_last() =~= g + last.drop_last());
}

proof fn lemma_marker_clean(orig_rel: Seq<char>, from: nat, to: nat)
    requires
        !orig_rel.contains('\n'),
    ensures
        marker_line(orig_rel, from, to).len() > 0,
        marker_line(orig_rel, from, to).last() == '\n',
        !marker_line(orig_rel, from, to).drop_last().contains('\n'),
{
    reveal_strlit("[TSK omitted lines ");
    reveal_strlit("..");
    reveal_strlit(". Full file: Read ");
    reveal_strlit(" with offset/limit, or Grep <pattern> ");
    reveal_strlit("]\n");
    lemma_number_clean(from);
    lemma_number_clean(to);
    let a = "[TSK omitted lines "@ + decimal_of(from);
    let b = a + ".."@;
    let c = b + decimal_of(to);
    let d = c + ". Full file: Read "@;
    let e = d + orig_rel;
    let f = e + " with offset/limit, or Grep <pattern> "@;
    let g = f + orig_rel;
    let last = "]\n"@;
    text::lemma_lacks_concat("[TSK omitted lines "@, decimal_of(from), '\n');
    text::lemma_lacks_concat(a, ".."@, '\n');
    text::lemma_lacks_concat(b, decimal_of(to), '\n');
    text::lemma_lacks_concat(c, ". Full file: Read "@, '\n');
    text::lemma_lacks_concat(d, orig_rel, '\n');
    text::lemma_lacks_concat(e, " with offset/limit, or Grep <pattern> "@, '\n');
    text::lemma_lacks_concat(f, orig_rel, '\n');
    text::lemma_lacks_concat(g, last.drop_last(), '\n');
    assert(marker_line(orig_rel, from, to) == g + last);
    assert((g + last).drop_last() =~= g + last.drop_last());
}

/// The layout of a skeleton: a header, the first lines of the file, the marker, the last
/// lines of the file. A line of the file stands under its number exactly as it stands in the
/// file between two line feeds, with at most one carriage return at its end taken off; the
/// marker names the first and the last of the lines that are left out.
#[verifier::spinoff_prover]
#[verifier::rlimit(30)]
pub proof fn lemma_layout(text: Seq<char>, orig_rel: Seq<char>, lim: Limits, n: nat, i: int)
    requires
        !orig_rel.contains('\n'),
        text.len() == 0 || text.last() == '\n' ==> n + 1 == pieces(text, '\n').len(),
        text.len() > 0 && text.last() != '\n' ==> n == pieces(text, '\n').len(),
        0 <= i < n,
    ensures
        skeleton_of(text, orig_rel, lim) is Some <==> n >= lim.min_lines && n > lim.skeleton_head
            + lim.skeleton_tail,
        skeleton_of(text, orig_rel, lim) matches Some(sk) ==> {
            let shown = pieces(sk, '\n');
            let line = pieces(text, '\n')[i];
            let number = right_aligned(decimal_of((i + 1) as nat), 6) + "\t"@;
            let at = if i < lim.skeleton_head {
                1 + i
            } else {
                2 + lim.skeleton_head + i - (n - lim.skeleton_tail)
            };
            &&& shown.len() == lim.skeleton_head + lim.skeleton_tail + 3
            &&& text::begins(
                shown[0],
                "[TSK SKELETON of "@ + orig_rel + " | "@ + decimal_of(n) + " lines total"@,
            )
            &&& text::begins(
                shown[1 + lim.skeleton_head],
                "[TSK omitted lines "@ + decimal_of((lim.skeleton_head + 1) as nat) + ".."@
                    + decimal_of((n - lim.skeleton_tail) as nat) + ". Full file: Read "@ + orig_rel,
            )
            &&& i < lim.skeleton_head || n - lim.skeleton_tail <= i ==> {
                &&& line.len() == 0 || line.last() != '\r' ==> shown[at] == number + line
                &&& line.len() > 0 && line.last() == '\r' ==> shown[at] + seq!['\r'] == number + line
            }
        },
{
    let lines = file_lines(text);
    text::lemma_pieces_nonempty(text, '\n');
    lemma_count(text, n);
    assert(lines.len() == n);
    if skeleton_of(text, orig_rel, lim) is Some {
        let sk = skeleton_of(text, orig_rel, lim)->0;
        let head = head_line(orig_rel, n, lim);
        let h = lim.skeleton_head as nat;
        let back = (n - lim.skeleton_tail) as nat;
        let marker = marker_line(orig_rel, h + 1, back);
        let none = Seq::<char>::empty();
        let front = head + numbered_lines(lines, 0, h);
        let mid = front + marker;
        assert(sk == mid + numbered_lines(lines, back, n));
        lemma_head_clean(orig_rel, n, lim);
        lemma_marker_clean(orig_rel, h + 1, back);
        text::lemma_piece_added(none, head.drop_last());
        assert(none + head.drop_last() + seq!['\n'] =~= head);
        text::lemma_pieces_plain(none, '\n');
        assert(pieces(none, '\n').drop_last() =~= Seq::empty());
        let a = head.drop_last();
        assert(pieces(head, '\n').drop_last() =~= seq![a]);
        lemma_lines_put(head, text, 0, h);
        text::lemma_piece_added(front, marker.drop_last());
        assert(front + marker.drop_last() + seq!['\n'] =~= mid);
        assert(pieces(mid, '\n').drop_last() =~= pieces(front, '\n').drop_last().push(
            marker.drop_last(),
        ));
        lemma_lines_put(mid, text, back, n);
        text::lemma_piece_added(sk, none);
        text::lemma_pieces_nonempty(sk, '\n');
        let shown = pieces(sk, '\n');
        let most = shown.drop_last();
        let one = Seq::new(h, |k: int| shown_line((0 + k + 1) as nat, lines[0 + k]));
        let two = Seq::new(
            (n - back) as nat,
            |k: int| shown_line((back + k + 1) as nat, lines[back + k]),
        );
        assert(most == (seq![a] + one).push(marker.drop_last()) + two);
        assert(shown[0] == most[0]);
        assert(shown[(1 + h) as int] == most[(1 + h) as int]);
        lemma_head_says(orig_rel, n, lim);
        lemma_marker_says(orig_rel, h + 1, back);
        if i < h {
            assert(shown[1 + i] == most[1 + i]);
            assert(most[1 + i] == one[i]);
            lemma_shown_line(text, i);
        }
        if back <= i {
            let at = 2 + h + (i - back);
            assert(shown[at] == most[at]);
            assert(most[at] == two[i - back]);
            lemma_shown_line(text, i);
        }
    }
}

proof fn lemma_count(text: Seq<char>, n: nat)
    requires
        text.len() == 0 || text.last() == '\n' ==> n + 1 == pieces(text, '\n').len(),
        text.len() > 0 && text.last() != '\n' ==> n == pieces(text, '\n').len(),
    ensures
        line_count(text) == n,
{
    text::lemma_pieces_nonempty(text, '\n');
    if text.len() > 0 {
        text::lemma_pieces_nonempty(text.drop_last(), '\n');
    }
}

proof fn lemma_shown_line(text: Seq<char>, i: int)
    requires
        0 <= i < file_lines(text).len(),
    ensures
        ({
            let line = pieces(text, '\n')[i];
            let number = right_aligned(decimal_of((i + 1) as nat), 6) + "\t"@;
            let shown = shown_line((i + 1) as nat, file_lines(text)[i]);
            &&& line.len() == 0 || line.last() != '\r' ==> shown == number + line
            &&& line.len() > 0 && line.last() == '\r' ==> shown + seq!['\r'] == number + line
        }),
{
    let line = pieces(text, '\n')[i];
    let number = right_aligned(decimal_of((i + 1) as nat), 6) + "\t"@;
    if line.len() > 0 && line.last() == '\r' {
        assert(number + line.drop_last() + seq!['\r'] =~= number + line);
    }
}

proof fn lemma_head_says(orig_rel: Seq<char>, n: nat, lim: Limits)
    ensures
        text::begins(
            head_line(orig_rel, n, lim).drop_last(),
            "[TSK SKELETON of "@ + orig_rel + " | "@ + decimal_of(n) + " lines total"@,
        ),
{
    reveal_strlit(" lines total | head ");
    reveal_strlit(" lines total");
    reveal_strlit(" | TSK v1]\n");
    let base = "[TSK SKELETON of "@ + orig_rel + " | "@ + decimal_of(n);
    let says = base + " lines total"@;
    let more = " lines total | head "@;
    let rest = head_line(orig_rel, n, lim);
    let x = decimal_of(lim.skeleton_head as nat);
    let y = decimal_of(lim.skeleton_tail as nat);
    assert(rest == base + more + x + " + tail "@ + y + " | TSK v1]\n"@);
    assert(more.take(12) =~= " lines total"@);
    assert((base + more).take(says.len() as int) =~= says);
    assert(rest.drop_last().subrange(0, says.len() as int) =~= (base + more).take(
        says.len() as int,
    ));
}

proof fn lemma_marker_says(orig_rel: Seq<char>, from: nat, to: nat)
    ensures
        text::begins(
            marker_line(orig_rel, from, to).drop_last(),
            "[TSK omitted lines "@ + decimal_of(from) + ".."@ + decimal_of(to)
                + ". Full file: Read "@ + orig_rel,
        ),
{
    reveal_strlit("]\n");
    let says = "[TSK omitted lines "@ + decimal_of(from) + ".."@ + decimal_of(to)
        + ". Full file: Read "@ + orig_rel;
    let m = marker_line(orig_rel, from, to);
    assert(m == says + " with offset/limit, or Grep <pattern> "@ + orig_rel + "]\n"@);
    assert(m.drop_last().subrange(0, says.len() as int) =~= says);
}

/// Every line that a skeleton shows stands in the file: it is the text between two line
/// feeds, character for character, with at most one carriage return at its end taken off.
pub proof fn lemma_verbatim(text: Seq<char>, orig_rel: Seq<char>, lim: Limits, i: int) -> (place: (
    int,
    int,
))
    requires
        skeleton_of(text, orig_rel, lim) is Some,
        0 <= i < lim.skeleton_head || file_lines(text).len() - lim.skeleton_tail <= i < file_lines(
            text,
        ).len(),
    ensures
        0 <= place.0 <= place.1 <= text.len(),
        i == 0 ==> place.0 == 0,
        i > 0 ==> place.0 > 0 && text[place.0 - 1] == '\n',
        place.1 == text.len() || text[place.1] == '\n' || (text[place.1] == '\r' && (place.1 + 1
            == text.len() || text[place.1 + 1] == '\n')),
        !text.subrange(place.0, place.1).contains('\n'),
        holds(
            skeleton_of(text, orig_rel, lim)->0,
            right_aligned(decimal_of((i + 1) as nat), 6) + "\t"@ + text.subrange(place.0, place.1)
                + "\n"@,
        ),
{
    lemma_ends_kept(text, orig_rel, lim, i);
    lemma_line_clean(text, i);
    let line = file_lines(text)[i];
    text::lemma_pieces_nonempty(text, '\n');
    let at = text::lemma_piece_place(text, '\n', i);
    if line.len() > 0 {
        assert(line.contains(line.last()));
    }
    let p = pieces(text, '\n')[i];
    let place = if p.len() > 0 && p.last() == '\r' {
        (at.0, at.1 - 1)
    } else {
        at
    };
    assert(line =~= text.subrange(place.0, place.1));
    if p.len() > 0 && p.last() == '\r' {
        assert(text[place.1] == p[p.len() - 1]);
    }
    place
}

} // verus!
