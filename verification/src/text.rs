//! Text as a sequence of characters: lines, pieces, searching, numbers.

use vstd::prelude::*;
use vstd::utf8::encode_utf8;

verus! {

/// `String::push` puts one character at the end.
pub assume_specification[ String::push ](s: &mut String, c: char)
    ensures
        final(s)@ == old(s)@.push(c),
;

/// What `str::to_lowercase` makes of a text.
pub uninterp spec fn lowered(s: Seq<char>) -> Seq<char>;

/// `str::to_lowercase` is a function of the text alone, by the tables of Unicode.
pub assume_specification[ str::to_lowercase ](s: &str) -> (r: String)
    ensures
        r@ == lowered(s@),
;

/// What `char::is_alphanumeric` says of a character.
pub uninterp spec fn alphanumeric(c: char) -> bool;

/// `char::is_alphanumeric` is a function of the character alone, by the tables of Unicode.
pub assume_specification[ char::is_alphanumeric ](c: char) -> (b: bool)
    ensures
        b == alphanumeric(c),
;

/// The texts that a vector of strings holds.
pub open spec fn texts(v: Seq<String>) -> Seq<Seq<char>> {
    v.map_values(|s: String| s@)
}

/// Bytes that the UTF-8 form of `s` takes.
pub open spec fn byte_count(s: Seq<char>) -> nat {
    encode_utf8(s).len()
}

/// Adding a character adds its bytes.
pub proof fn lemma_encode_push(s: Seq<char>, c: char)
    ensures
        encode_utf8(s.push(c)) == encode_utf8(s) + encode_utf8(seq![c]),
    decreases s.len(),
{
    if s.len() == 0 {
        assert(s.push(c) =~= seq![c]);
        assert(encode_utf8(s) =~= Seq::<u8>::empty());
    } else {
        lemma_encode_push(s.drop_first(), c);
        assert(s.push(c).drop_first() =~= s.drop_first().push(c));
        assert(s.push(c)[0] == s[0]);
    }
}

/// The bytes of two texts together are those of each.
pub proof fn lemma_byte_count_concat(a: Seq<char>, b: Seq<char>)
    ensures
        byte_count(a + b) == byte_count(a) + byte_count(b),
    decreases b.len(),
{
    if b.len() == 0 {
        assert(a + b =~= a);
        assert(encode_utf8(b) =~= Seq::<u8>::empty());
    } else {
        let front = b.drop_last();
        lemma_byte_count_concat(a, front);
        assert(a + b =~= (a + front).push(b.last()));
        assert(b =~= front.push(b.last()));
        lemma_encode_push(a + front, b.last());
        lemma_encode_push(front, b.last());
    }
}

/// Length of `s` in bytes.
pub fn byte_len(s: &str) -> (n: usize)
    ensures
        n == byte_count(s@),
{
    s.as_bytes().len()
}

/// The characters of `s`.
pub fn chars(s: &str) -> (v: Vec<char>)
    ensures
        v@ == s@,
{
    let mut v: Vec<char> = Vec::new();
    for c in it: s.chars()
        invariant
            it.seq() == s@,
            v@ == s@.take(it.index() as int),
    {
        v.push(c);
    }
    assert(s@.take(s@.len() as int) =~= s@);
    v
}

/// The text made of `v[from..to]`.
pub fn slice(v: &Vec<char>, from: usize, to: usize) -> (s: String)
    requires
        from <= to <= v@.len(),
    ensures
        s@ == v@.subrange(from as int, to as int),
{
    let mut s = String::new();
    let mut i: usize = from;
    while i < to
        invariant
            from <= i <= to <= v@.len(),
            s@ =~= v@.subrange(from as int, i as int),
        decreases to - i,
    {
        s.push(v[i]);
        i = i + 1;
    }
    s
}

/// An owned copy of `s`.
pub fn copy(s: &str) -> (r: String)
    ensures
        r@ == s@,
{
    s.to_owned()
}

/// Do the two texts hold the same characters?
pub fn same(a: &str, b: &str) -> (r: bool)
    ensures
        r == (a@ == b@),
{
    let x = a.to_owned();
    let y = b.to_owned();
    x == y
}

/// `s` cut at every `sep`: one piece more than there are separators.
pub open spec fn pieces(s: Seq<char>, sep: char) -> Seq<Seq<char>>
    decreases s.len(),
{
    if s.len() == 0 {
        seq![Seq::empty()]
    } else {
        let before = pieces(s.drop_last(), sep);
        if s.last() == sep {
            before.push(Seq::empty())
        } else {
            before.drop_last().push(before.last().push(s.last()))
        }
    }
}

/// `parts` with `sep` between neighbours.
pub open spec fn joined(parts: Seq<Seq<char>>, sep: Seq<char>) -> Seq<char>
    decreases parts.len(),
{
    if parts.len() == 0 {
        Seq::empty()
    } else if parts.len() == 1 {
        parts[0]
    } else {
        joined(parts.drop_last(), sep) + sep + parts.last()
    }
}

/// A split text has at least one piece.
pub proof fn lemma_pieces_nonempty(s: Seq<char>, sep: char)
    ensures
        pieces(s, sep).len() >= 1,
    decreases s.len(),
{
    if s.len() > 0 {
        lemma_pieces_nonempty(s.drop_last(), sep);
    }
}

/// Joining the pieces with the separator gives the text back.
pub proof fn lemma_join_pieces(s: Seq<char>, sep: char)
    ensures
        joined(pieces(s, sep), seq![sep]) == s,
    decreases s.len(),
{
    if s.len() == 0 {
        assert(pieces(s, sep).len() == 1);
    } else {
        let before = pieces(s.drop_last(), sep);
        lemma_pieces_nonempty(s.drop_last(), sep);
        lemma_join_pieces(s.drop_last(), sep);
        let all = pieces(s, sep);
        if s.last() == sep {
            assert(all.drop_last() =~= before);
            assert(joined(all, seq![sep]) =~= s);
        } else {
            if before.len() == 1 {
                assert(all[0] == before[0].push(s.last()));
            } else {
                assert(all.drop_last() =~= before.drop_last());
                assert(all.last() == before.last().push(s.last()));
            }
            assert(joined(all, seq![sep]) =~= s.drop_last().push(s.last()));
        }
    }
}

/// The pieces of `s` between the separators `sep`.
pub fn split(s: &str, sep: char) -> (r: Vec<String>)
    ensures
        texts(r@) == pieces(s@, sep),
{
    let v = chars(s);
    let mut out: Vec<String> = Vec::new();
    let mut cur = String::new();
    let mut i: usize = 0;
    while i < v.len()
        invariant
            i <= v@.len(),
            texts(out@).push(cur@) == pieces(v@.take(i as int), sep),
        decreases v@.len() - i,
    {
        let ghost before = pieces(v@.take(i as int), sep);
        let ghost taken = v@.take(i + 1);
        assert(taken.drop_last() =~= v@.take(i as int));
        assert(taken.last() == v@[i as int]);
        assert(before.last() == cur@);
        assert(before.drop_last() =~= texts(out@));
        if v[i] == sep {
            let ghost done = out@;
            out.push(cur);
            cur = String::new();
            assert(texts(out@) =~= before);
        } else {
            cur.push(v[i]);
        }
        i = i + 1;
    }
    assert(v@.take(v@.len() as int) =~= s@);
    let ghost done = out@;
    out.push(cur);
    assert(texts(out@) =~= texts(done).push(cur@));
    out
}

/// The parts with `sep` between neighbours.
pub fn join(parts: &Vec<String>, sep: &str) -> (r: String)
    ensures
        r@ == joined(texts(parts@), sep@),
{
    let mut out = String::new();
    let mut i: usize = 0;
    while i < parts.len()
        invariant
            i <= parts@.len(),
            out@ == joined(texts(parts@).take(i as int), sep@),
        decreases parts@.len() - i,
    {
        let ghost taken = texts(parts@).take(i + 1);
        assert(taken.drop_last() =~= texts(parts@).take(i as int));
        if i > 0 {
            out.append(sep);
        }
        out.append(parts[i].as_str());
        assert(out@ =~= joined(taken, sep@));
        i = i + 1;
    }
    assert(texts(parts@).take(parts@.len() as int) =~= texts(parts@));
    out
}

/// `line` without one `\r` at its end.
pub open spec fn without_cr(line: Seq<char>) -> Seq<char> {
    if line.len() > 0 && line.last() == '\r' {
        line.drop_last()
    } else {
        line
    }
}

/// How many lines `s` has; a last line without a line feed counts when it holds something.
pub open spec fn line_count(s: Seq<char>) -> nat {
    let p = pieces(s, '\n');
    if p.last().len() == 0 {
        (p.len() - 1) as nat
    } else {
        p.len()
    }
}

/// The lines of `s`, each without its ending: a line feed, or a carriage return and a line
/// feed. A carriage return at the very end of the text is no line ending and stays.
pub open spec fn lines_of(s: Seq<char>) -> Seq<Seq<char>> {
    let p = pieces(s, '\n');
    Seq::new(
        line_count(s),
        |i: int|
            if i < p.len() - 1 {
                without_cr(p[i])
            } else {
                p[i]
            },
    )
}

/// A copy of `s` without one `\r` at its end.
pub fn strip_cr(s: &str) -> (r: String)
    ensures
        r@ == without_cr(s@),
{
    let v = chars(s);
    let n = v.len();
    if n > 0 && v[n - 1] == '\r' {
        let r = slice(&v, 0, n - 1);
        assert(r@ =~= s@.drop_last());
        r
    } else {
        copy(s)
    }
}

/// The lines of `s`, without their endings.
pub fn lines(s: &str) -> (r: Vec<String>)
    ensures
        texts(r@) == lines_of(s@),
{
    let p = split(s, '\n');
    proof {
        lemma_pieces_nonempty(s@, '\n');
        assert(p@.len() == texts(p@).len());
    }
    let last = p.len() - 1;
    let mut out: Vec<String> = Vec::new();
    let mut i: usize = 0;
    while i < last
        invariant
            i <= last,
            last == p@.len() - 1,
            texts(p@) == pieces(s@, '\n'),
            out@.len() == i,
            forall|j: int| 0 <= j < i ==> (#[trigger] out@[j])@ == without_cr(p@[j]@),
        decreases last - i,
    {
        out.push(strip_cr(p[i].as_str()));
        i = i + 1;
    }
    assert(texts(p@)[last as int] == p@[last as int]@);
    if !p[last].as_str().is_empty() {
        out.push(copy(p[last].as_str()));
    }
    assert(texts(out@) =~= lines_of(s@)) by {
        assert forall|j: int| 0 <= j < out@.len() implies texts(out@)[j] == lines_of(s@)[j] by {
            assert(texts(p@)[j] == p@[j]@);
        }
    }
    out
}

/// Does `pat` stand in `s` at position `i`?
pub open spec fn found_at(s: Seq<char>, pat: Seq<char>, i: int) -> bool {
    0 <= i && i + pat.len() <= s.len() && s.subrange(i, i + pat.len()) == pat
}

/// Does `pat` stand anywhere in `s`?
pub open spec fn holds(s: Seq<char>, pat: Seq<char>) -> bool {
    exists|i: int| found_at(s, pat, i)
}

/// Does `s` begin with `pat`?
pub open spec fn begins(s: Seq<char>, pat: Seq<char>) -> bool {
    found_at(s, pat, 0)
}

/// Occurrences of `pat` in `s`, counted from the left, none overlapping the one before.
pub open spec fn occurrences(s: Seq<char>, pat: Seq<char>) -> nat
    decreases s.len(),
{
    if pat.len() == 0 || s.len() < pat.len() {
        0
    } else if begins(s, pat) {
        1 + occurrences(s.skip(pat.len() as int), pat)
    } else {
        occurrences(s.skip(1), pat)
    }
}

/// `s` with `to` in place of each occurrence of `from`, taken from the left.
pub open spec fn replaced(s: Seq<char>, from: Seq<char>, to: Seq<char>) -> Seq<char>
    decreases s.len(),
{
    if from.len() == 0 || s.len() < from.len() {
        s
    } else if begins(s, from) {
        to + replaced(s.skip(from.len() as int), from, to)
    } else {
        seq![s[0]] + replaced(s.skip(1), from, to)
    }
}

/// Does `pat` stand in `v` at position `i`?
pub fn is_at(v: &Vec<char>, pat: &Vec<char>, i: usize) -> (b: bool)
    requires
        i <= v@.len(),
    ensures
        b == found_at(v@, pat@, i as int),
{
    if v.len() - i < pat.len() {
        return false;
    }
    let mut j: usize = 0;
    while j < pat.len()
        invariant
            j <= pat@.len(),
            i + pat.len() <= v.len(),
            forall|k: int| 0 <= k < j ==> v@[i + k] == pat@[k],
        decreases pat@.len() - j,
    {
        if v[i + j] != pat[j] {
            assert(v@.subrange(i as int, i + pat@.len())[j as int] != pat@[j as int]);
            return false;
        }
        j = j + 1;
    }
    assert(v@.subrange(i as int, i + pat@.len()) =~= pat@);
    true
}

/// Does `pat` stand anywhere in `s`?
pub fn contains(s: &str, pat: &str) -> (b: bool)
    ensures
        b == holds(s@, pat@),
{
    let v = chars(s);
    let p = chars(pat);
    let mut i: usize = 0;
    while i < v.len()
        invariant
            v@ == s@,
            p@ == pat@,
            i <= v@.len(),
            forall|k: int| 0 <= k < i ==> !found_at(v@, p@, k),
        decreases v@.len() - i,
    {
        if is_at(&v, &p, i) {
            return true;
        }
        i = i + 1;
    }
    is_at(&v, &p, i)
}

/// Does `s` begin with `pat`?
pub fn starts_with(s: &str, pat: &str) -> (b: bool)
    ensures
        b == begins(s@, pat@),
{
    let v = chars(s);
    let p = chars(pat);
    is_at(&v, &p, 0)
}

/// A pattern stands at a place where what is left from there on begins with it.
pub proof fn lemma_begins_skip(s: Seq<char>, pat: Seq<char>, i: int)
    requires
        0 <= i <= s.len(),
    ensures
        begins(s.skip(i), pat) == found_at(s, pat, i),
{
    if i + pat.len() <= s.len() {
        assert(s.skip(i).subrange(0, pat.len() as int) =~= s.subrange(i, i + pat.len()));
    }
}

/// How often `pat` occurs in `s`, from the left and without overlap.
pub fn count(s: &str, pat: &str) -> (n: usize)
    requires
        pat@.len() > 0,
    ensures
        n == occurrences(s@, pat@),
{
    let v = chars(s);
    let p = chars(pat);
    let mut n: usize = 0;
    let mut i: usize = 0;
    assert(v@.skip(0) =~= v@);
    while i < v.len() && v.len() - i >= p.len()
        invariant
            p@.len() > 0,
            i <= v@.len(),
            n <= i,
            n + occurrences(v@.skip(i as int), p@) == occurrences(v@, p@),
        decreases v@.len() - i,
    {
        proof {
            lemma_begins_skip(v@, p@, i as int);
            assert(v@.skip(i as int).skip(p@.len() as int) =~= v@.skip(i + p@.len()));
            assert(v@.skip(i as int).skip(1) =~= v@.skip(i + 1));
        }
        if is_at(&v, &p, i) {
            n = n + 1;
            i = i + p.len();
        } else {
            i = i + 1;
        }
    }
    n
}

/// `s` with `to` in place of each occurrence of `from`.
pub fn replace(s: &str, from: &str, to: &str) -> (r: String)
    requires
        from@.len() > 0,
    ensures
        r@ == replaced(s@, from@, to@),
{
    let v = chars(s);
    let p = chars(from);
    let mut out = String::new();
    let mut i: usize = 0;
    assert(v@.skip(0) =~= v@);
    assert(out@ + replaced(v@, p@, to@) =~= replaced(v@, p@, to@));
    while i < v.len()
        invariant
            p@.len() > 0,
            p@ == from@,
            i <= v@.len(),
            out@ + replaced(v@.skip(i as int), p@, to@) == replaced(v@, p@, to@),
        decreases v@.len() - i,
    {
        let ghost rest = v@.skip(i as int);
        let ghost before = out@;
        proof {
            lemma_begins_skip(v@, p@, i as int);
            assert(rest.skip(1) =~= v@.skip(i + 1));
        }
        if is_at(&v, &p, i) {
            assert(rest.skip(p@.len() as int) =~= v@.skip(i + p@.len()));
            out.append(to);
            i = i + p.len();
            assert(out@ + replaced(v@.skip(i as int), p@, to@) =~= before + replaced(rest, p@, to@));
        } else {
            proof {
                if rest.len() < p@.len() {
                    assert(rest =~= seq![rest[0]] + rest.skip(1));
                    assert(replaced(rest.skip(1), p@, to@) =~= rest.skip(1));
                }
            }
            out.push(v[i]);
            i = i + 1;
            assert(out@ + replaced(v@.skip(i as int), p@, to@) =~= before + replaced(rest, p@, to@));
        }
    }
    assert(v@.skip(i as int) =~= Seq::<char>::empty());
    assert(out@ + replaced(v@.skip(i as int), p@, to@) =~= out@);
    out
}

/// The characters with the Unicode property White_Space.
pub open spec fn white(c: char) -> bool {
    ||| 0x9 <= c as u32 <= 0xd
    ||| c as u32 == 0x20
    ||| c as u32 == 0x85
    ||| c as u32 == 0xa0
    ||| c as u32 == 0x1680
    ||| 0x2000 <= c as u32 <= 0x200a
    ||| c as u32 == 0x2028
    ||| c as u32 == 0x2029
    ||| c as u32 == 0x202f
    ||| c as u32 == 0x205f
    ||| c as u32 == 0x3000
}

/// Is `c` white space?
pub fn is_white(c: char) -> (b: bool)
    ensures
        b == white(c),
{
    let n: u32 = c as u32;
    (0x9 <= n && n <= 0xd) || n == 0x20 || n == 0x85 || n == 0xa0 || n == 0x1680 || (0x2000 <= n
        && n <= 0x200a) || n == 0x2028 || n == 0x2029 || n == 0x202f || n == 0x205f || n == 0x3000
}

/// `s` without the white space at its start.
pub open spec fn trimmed_start(s: Seq<char>) -> Seq<char>
    decreases s.len(),
{
    if s.len() > 0 && white(s[0]) {
        trimmed_start(s.drop_first())
    } else {
        s
    }
}

/// `s` without the white space at its end.
pub open spec fn trimmed_end(s: Seq<char>) -> Seq<char>
    decreases s.len(),
{
    if s.len() > 0 && white(s.last()) {
        trimmed_end(s.drop_last())
    } else {
        s
    }
}

/// `s` without the white space at both ends.
pub open spec fn trimmed(s: Seq<char>) -> Seq<char> {
    trimmed_end(trimmed_start(s))
}

/// `s` without the white space at both ends.
pub fn trim(s: &str) -> (r: String)
    ensures
        r@ == trimmed(s@),
{
    let v = chars(s);
    let mut from: usize = 0;
    assert(v@.skip(0) =~= v@);
    while from < v.len() && is_white(v[from])
        invariant
            from <= v@.len(),
            trimmed_start(v@.skip(from as int)) == trimmed_start(v@),
        decreases v@.len() - from,
    {
        assert(v@.skip(from as int).drop_first() =~= v@.skip(from + 1));
        from = from + 1;
    }
    let ghost mid = v@.skip(from as int);
    assert(trimmed_start(v@) == mid);
    let mut to: usize = v.len();
    assert(v@.subrange(from as int, to as int) =~= mid);
    while from < to && is_white(v[to - 1])
        invariant
            from <= to <= v@.len(),
            trimmed_end(v@.subrange(from as int, to as int)) == trimmed_end(mid),
        decreases to,
    {
        assert(v@.subrange(from as int, to as int).drop_last() =~= v@.subrange(from as int, to - 1));
        to = to - 1;
    }
    slice(&v, from, to)
}

/// `s` on one line: every line break in it is a blank.
pub open spec fn flat(s: Seq<char>) -> Seq<char> {
    s.map_values(
        |c: char|
            if c == '\n' || c == '\r' {
                ' '
            } else {
                c
            },
    )
}

/// `s` on one line: every line break in it is a blank.
pub fn flatten(s: &str) -> (r: String)
    ensures
        r@ == flat(s@),
{
    let v = chars(s);
    let mut out = String::new();
    let mut i: usize = 0;
    assert(out@ =~= flat(s@).take(0));
    while i < v.len()
        invariant
            i <= v@.len(),
            v@ == s@,
            out@ == flat(s@).take(i as int),
        decreases v@.len() - i,
    {
        let c: char = if v[i] == '\n' || v[i] == '\r' {
            ' '
        } else {
            v[i]
        };
        out.push(c);
        assert(flat(s@).take(i + 1) =~= flat(s@).take(i as int).push(flat(s@)[i as int]));
        i = i + 1;
    }
    assert(flat(s@).take(i as int) =~= flat(s@));
    out
}

/// The first `n` characters of `s`, or all of it.
pub open spec fn first_chars(s: Seq<char>, n: nat) -> Seq<char> {
    if s.len() <= n {
        s
    } else {
        s.take(n as int)
    }
}

/// The first `n` characters of `s`, or all of it.
pub fn take_chars(s: &str, n: usize) -> (r: String)
    ensures
        r@ == first_chars(s@, n as nat),
{
    let v = chars(s);
    if v.len() <= n {
        copy(s)
    } else {
        slice(&v, 0, n)
    }
}

/// Does `a` come before `b` in the order of their code points? This is also the order of
/// their UTF-8 bytes.
pub open spec fn before(a: Seq<char>, b: Seq<char>) -> bool
    decreases a.len(),
{
    if b.len() == 0 {
        false
    } else if a.len() == 0 {
        true
    } else if a[0] == b[0] {
        before(a.drop_first(), b.drop_first())
    } else {
        (a[0] as u32) < (b[0] as u32)
    }
}

/// Does `a` come before `b` in the order of their code points?
pub fn is_before(a: &str, b: &str) -> (r: bool)
    ensures
        r == before(a@, b@),
{
    let x = chars(a);
    let y = chars(b);
    let mut i: usize = 0;
    assert(x@.skip(0) =~= x@);
    assert(y@.skip(0) =~= y@);
    while i < x.len() && i < y.len()
        invariant
            x@ == a@,
            y@ == b@,
            i <= x@.len(),
            i <= y@.len(),
            before(x@.skip(i as int), y@.skip(i as int)) == before(x@, y@),
        decreases x@.len() - i,
    {
        assert(x@.skip(i as int).drop_first() =~= x@.skip(i + 1));
        assert(y@.skip(i as int).drop_first() =~= y@.skip(i + 1));
        if x[i] != y[i] {
            return (x[i] as u32) < (y[i] as u32);
        }
        i = i + 1;
    }
    i < y.len()
}

/// What an optional string holds.
pub open spec fn content(s: Option<String>) -> Option<Seq<char>> {
    match s {
        Some(t) => Some(t@),
        None => None,
    }
}

/// Cutting at a separator between two texts cuts each of them on its own.
pub proof fn lemma_pieces_concat(a: Seq<char>, b: Seq<char>, sep: char)
    ensures
        pieces(a + seq![sep] + b, sep) == pieces(a, sep) + pieces(b, sep),
    decreases b.len(),
{
    let s = a + seq![sep] + b;
    if b.len() == 0 {
        assert(s =~= a.push(sep));
        assert(s.drop_last() =~= a);
        assert(pieces(s, sep) =~= pieces(a, sep) + pieces(b, sep));
    } else {
        lemma_pieces_concat(a, b.drop_last(), sep);
        lemma_pieces_nonempty(b.drop_last(), sep);
        assert(s.drop_last() =~= a + seq![sep] + b.drop_last());
        assert(s.last() == b.last());
        assert(pieces(s, sep) =~= pieces(a, sep) + pieces(b, sep));
    }
}

/// A text without separators is its only piece.
pub proof fn lemma_pieces_plain(s: Seq<char>, sep: char)
    requires
        !s.contains(sep),
    ensures
        pieces(s, sep) == seq![s],
    decreases s.len(),
{
    if s.len() > 0 {
        assert(!s.drop_last().contains(sep)) by {
            if s.drop_last().contains(sep) {
                let i = s.drop_last().index_of(sep);
                assert(s[i] == sep);
            }
        }
        lemma_pieces_plain(s.drop_last(), sep);
        assert(s.last() != sep) by {
            assert(s[s.len() - 1] == s.last());
        }
        assert(s.drop_last().push(s.last()) =~= s);
        assert(pieces(s, sep) =~= seq![s]);
    } else {
        assert(s =~= Seq::empty());
    }
}

/// No piece holds a separator.
pub proof fn lemma_pieces_clean(s: Seq<char>, sep: char)
    ensures
        forall|i: int| 0 <= i < pieces(s, sep).len() ==> !(#[trigger] pieces(s, sep)[i]).contains(sep),
    decreases s.len(),
{
    if s.len() > 0 {
        let before = pieces(s.drop_last(), sep);
        lemma_pieces_clean(s.drop_last(), sep);
        lemma_pieces_nonempty(s.drop_last(), sep);
        assert forall|i: int| 0 <= i < pieces(s, sep).len() implies !(#[trigger] pieces(
            s,
            sep,
        )[i]).contains(sep) by {
            if i < before.len() - 1 || s.last() == sep {
                if i < before.len() {
                    assert(pieces(s, sep)[i] == before[i]);
                }
            } else {
                let p = before.last();
                assert(pieces(s, sep)[i] == p.push(s.last()));
                assert(!before[before.len() - 1].contains(sep));
                if p.push(s.last()).contains(sep) {
                    let j = p.push(s.last()).index_of(sep);
                    assert(p[j] == sep);
                }
            }
        }
    }
}

/// Parts without separators are the pieces of their join.
pub proof fn lemma_pieces_joined(parts: Seq<Seq<char>>, sep: char)
    requires
        parts.len() > 0,
        forall|i: int| 0 <= i < parts.len() ==> !(#[trigger] parts[i]).contains(sep),
    ensures
        pieces(joined(parts, seq![sep]), sep) == parts,
    decreases parts.len(),
{
    if parts.len() == 1 {
        lemma_pieces_plain(parts[0], sep);
        assert(parts =~= seq![parts[0]]);
    } else {
        let before = parts.drop_last();
        assert forall|i: int| 0 <= i < before.len() implies !(#[trigger] before[i]).contains(
            sep,
        ) by {
            assert(before[i] == parts[i]);
        }
        lemma_pieces_joined(before, sep);
        assert(!parts[parts.len() - 1].contains(sep));
        lemma_pieces_plain(parts.last(), sep);
        lemma_pieces_concat(joined(before, seq![sep]), parts.last(), sep);
        assert(before + seq![parts.last()] =~= parts);
    }
}

/// Replacing a text by one without its first character leaves none of that character
/// where the text is that character alone.
pub proof fn lemma_replaced_all(s: Seq<char>, c: char, d: char)
    requires
        c != d,
    ensures
        !replaced(s, seq![c], seq![d]).contains(c),
    decreases s.len(),
{
    let r = replaced(s, seq![c], seq![d]);
    if s.len() > 0 {
        lemma_replaced_all(s.skip(1), c, d);
        let rest = replaced(s.skip(1), seq![c], seq![d]);
        if begins(s, seq![c]) {
            assert(r == seq![d] + rest);
        } else {
            assert(s.subrange(0, 1) =~= seq![s[0]]);
            assert(s[0] != c);
            assert(r == seq![s[0]] + rest);
        }
        if r.contains(c) {
            let i = r.index_of(c);
            assert(i > 0);
            assert(rest[i - 1] == c);
        }
    }
}

/// Nothing changes where there is nothing to replace.
pub proof fn lemma_replaced_none(s: Seq<char>, c: char, to: Seq<char>)
    requires
        !s.contains(c),
    ensures
        replaced(s, seq![c], to) == s,
    decreases s.len(),
{
    if s.len() > 0 {
        assert(s[0] != c);
        assert(!begins(s, seq![c])) by {
            assert(s.subrange(0, 1)[0] == s[0]);
            assert(seq![c][0] == c);
        }
        assert(!s.skip(1).contains(c)) by {
            if s.skip(1).contains(c) {
                let i = s.skip(1).index_of(c);
                assert(s[i + 1] == c);
            }
        }
        lemma_replaced_none(s.skip(1), c, to);
        assert(seq![s[0]] + s.skip(1) =~= s);
    }
}

/// Does `v` hold the text `s`?
pub fn member(v: &Vec<String>, s: &str) -> (b: bool)
    ensures
        b == texts(v@).contains(s@),
{
    let mut i: usize = 0;
    while i < v.len()
        invariant
            i <= v@.len(),
            forall|k: int| 0 <= k < i ==> texts(v@)[k] != s@,
        decreases v@.len() - i,
    {
        assert(texts(v@)[i as int] == v@[i as int]@);
        if same(v[i].as_str(), s) {
            return true;
        }
        i = i + 1;
    }
    assert(texts(v@).len() == v@.len());
    false
}

/// The texts `v[from..to]` again.
pub fn copy_range(v: &Vec<String>, from: usize, to: usize) -> (r: Vec<String>)
    requires
        from <= to <= v@.len(),
    ensures
        texts(r@) == texts(v@).subrange(from as int, to as int),
{
    let mut out: Vec<String> = Vec::new();
    let mut i: usize = from;
    while i < to
        invariant
            from <= i <= to <= v@.len(),
            out@.len() == i - from,
            forall|k: int| 0 <= k < out@.len() ==> (#[trigger] out@[k])@ == v@[from + k]@,
        decreases to - i,
    {
        out.push(copy(v[i].as_str()));
        i = i + 1;
    }
    assert(texts(out@) =~= texts(v@).subrange(from as int, to as int));
    out
}

/// Pushing a string pushes its text.
pub proof fn lemma_texts_push(v: Seq<String>, s: String)
    ensures
        texts(v.push(s)) == texts(v).push(s@),
{
    assert(texts(v.push(s)) =~= texts(v).push(s@));
}

/// What stands in one of two texts stands in both together.
pub proof fn lemma_has_concat(a: Seq<char>, b: Seq<char>, pat: Seq<char>)
    ensures
        holds(a, pat) ==> holds(a + b, pat),
        holds(b, pat) ==> holds(a + b, pat),
{
    if holds(a, pat) {
        let i = choose|i: int| found_at(a, pat, i);
        assert((a + b).subrange(i, i + pat.len()) =~= a.subrange(i, i + pat.len()));
        assert(found_at(a + b, pat, i));
    }
    if holds(b, pat) {
        let i = choose|i: int| found_at(b, pat, i);
        let j = i + a.len();
        assert((a + b).subrange(j, j + pat.len()) =~= b.subrange(i, i + pat.len()));
        assert(found_at(a + b, pat, j));
    }
}

proof fn lemma_begins_concat(a: Seq<char>, b: Seq<char>, pat: Seq<char>)
    requires
        pat.len() > 0,
        b.len() == 0 || !pat.contains(b[0]),
    ensures
        begins(a + b, pat) == (begins(a, pat) || (a.len() == 0 && begins(b, pat))),
{
    let s = a + b;
    if begins(a, pat) {
        assert(s.subrange(0, pat.len() as int) =~= a.subrange(0, pat.len() as int));
    }
    if a.len() == 0 {
        assert(s =~= b);
    } else if begins(s, pat) && a.len() < pat.len() {
        assert(s.subrange(0, pat.len() as int)[a.len() as int] == b[0]);
        assert(pat[a.len() as int] == b[0]);
    } else if begins(s, pat) {
        assert(s.subrange(0, pat.len() as int) =~= a.subrange(0, pat.len() as int));
    }
}

/// Occurrences in two texts add up where none can lie across the joint.
pub proof fn lemma_occurrences_concat(a: Seq<char>, b: Seq<char>, pat: Seq<char>)
    requires
        pat.len() > 0,
        b.len() == 0 || !pat.contains(b[0]),
    ensures
        occurrences(a + b, pat) == occurrences(a, pat) + occurrences(b, pat),
    decreases a.len(),
{
    let s = a + b;
    if a.len() == 0 {
        assert(s =~= b);
        assert(occurrences(a, pat) == 0);
    } else {
        lemma_begins_concat(a, b, pat);
        if begins(a, pat) {
            let n = pat.len() as int;
            assert(s.skip(n) =~= a.skip(n) + b);
            lemma_occurrences_concat(a.skip(n), b, pat);
        } else {
            assert(!begins(s, pat));
            assert(s.skip(1) =~= a.skip(1) + b);
            lemma_occurrences_concat(a.skip(1), b, pat);
            lemma_occurrences_step(s, pat);
            lemma_occurrences_step(a, pat);
        }
    }
}

/// A text that does not begin with `pat` has it as often as the rest of the text.
pub proof fn lemma_occurrences_step(s: Seq<char>, pat: Seq<char>)
    requires
        s.len() > 0,
        !begins(s, pat),
    ensures
        occurrences(s, pat) == occurrences(s.skip(1), pat),
{
}

/// A text without the first character of `pat` has no occurrence of it.
pub proof fn lemma_occurrences_none(s: Seq<char>, pat: Seq<char>)
    requires
        pat.len() > 0,
        !s.contains(pat[0]),
    ensures
        occurrences(s, pat) == 0,
    decreases s.len(),
{
    if s.len() > 0 {
        if begins(s, pat) {
            assert(s.subrange(0, pat.len() as int)[0] == s[0]);
            assert(s.contains(pat[0]));
        }
        if s.skip(1).contains(pat[0]) {
            let i = s.skip(1).index_of(pat[0]);
            assert(s[i + 1] == pat[0]);
        }
        lemma_occurrences_none(s.skip(1), pat);
    }
}

/// What stands in a part of a text stands in the text.
pub proof fn lemma_has_within(s: Seq<char>, part: Seq<char>, pat: Seq<char>)
    requires
        holds(s, part),
        holds(part, pat),
    ensures
        holds(s, pat),
{
    let i = choose|i: int| found_at(s, part, i);
    let j = choose|j: int| found_at(part, pat, j);
    assert(s.subrange(i, i + part.len()).subrange(j, j + pat.len()) =~= s.subrange(
        i + j,
        i + j + pat.len(),
    ));
    assert(found_at(s, pat, i + j));
}

/// Nothing changes where there is nothing to replace.
pub proof fn lemma_replaced_absent(s: Seq<char>, from: Seq<char>, to: Seq<char>)
    requires
        !holds(s, from),
    ensures
        replaced(s, from, to) == s,
    decreases s.len(),
{
    if from.len() > 0 && s.len() >= from.len() {
        assert(!found_at(s, from, 0));
        let rest = s.skip(1);
        assert(!holds(rest, from)) by {
            if holds(rest, from) {
                let i = choose|i: int| found_at(rest, from, i);
                assert(s.subrange(i + 1, i + 1 + from.len()) =~= rest.subrange(i, i + from.len()));
                assert(found_at(s, from, i + 1));
            }
        }
        lemma_replaced_absent(rest, from, to);
        assert(seq![s[0]] + rest =~= s);
    }
}

/// Replacing brings in no character that neither the text nor the replacement holds.
pub proof fn lemma_replaced_without(s: Seq<char>, from: Seq<char>, to: Seq<char>, c: char)
    requires
        !s.contains(c),
        !to.contains(c),
    ensures
        !replaced(s, from, to).contains(c),
    decreases s.len(),
{
    let r = replaced(s, from, to);
    if from.len() > 0 && s.len() >= from.len() {
        let (head, rest) = if begins(s, from) {
            (to, s.skip(from.len() as int))
        } else {
            (seq![s[0]], s.skip(1))
        };
        assert(!rest.contains(c)) by {
            if rest.contains(c) {
                let i = rest.index_of(c);
                assert(s[i + s.len() - rest.len()] == c);
            }
        }
        assert(s[0] != c);
        lemma_replaced_without(rest, from, to, c);
        let tail = replaced(rest, from, to);
        assert(r == head + tail);
        if r.contains(c) {
            let i = r.index_of(c);
            if i < head.len() {
                assert(head[i] == c);
            } else {
                assert(tail[i - head.len()] == c);
            }
        }
    }
}

/// Every piece stands in the text, the last one at its end.
pub proof fn lemma_piece_within(s: Seq<char>, sep: char)
    ensures
        forall|i: int| 0 <= i < pieces(s, sep).len() ==> holds(s, #[trigger] pieces(s, sep)[i]),
        pieces(s, sep).last().len() <= s.len(),
        s.skip(s.len() - pieces(s, sep).last().len()) == pieces(s, sep).last(),
    decreases s.len(),
{
    let p = pieces(s, sep);
    if s.len() == 0 {
        assert(s.subrange(0, 0) =~= p[0]);
        assert(found_at(s, p[0], 0));
        assert(s.skip(0) =~= p.last());
    } else {
        let t = s.drop_last();
        let q = pieces(t, sep);
        lemma_piece_within(t, sep);
        lemma_pieces_nonempty(t, sep);
        assert(t + seq![s.last()] =~= s);
        if s.last() == sep {
            assert(s.skip(s.len() as int) =~= p.last());
        } else {
            assert(p.last() == q.last().push(s.last()));
            assert(s.skip(s.len() - p.last().len()) =~= t.skip(t.len() - q.last().len()).push(
                s.last(),
            ));
        }
        let at = s.len() - p.last().len();
        assert(s.subrange(at, at + p.last().len()) =~= s.skip(at));
        assert(found_at(s, p.last(), at));
        assert forall|i: int| 0 <= i < p.len() implies holds(s, #[trigger] p[i]) by {
            if i < p.len() - 1 {
                assert(p[i] == q[i]);
                lemma_has_concat(t, seq![s.last()], q[i]);
            }
        }
    }
}

/// A line put at the end of a text whose last line is whole becomes its last line, and the
/// lines before it stay as they are.
pub proof fn lemma_line_added(a: Seq<char>, line: Seq<char>)
    requires
        a.len() == 0 || a.last() == '\n',
        !line.contains('\n'),
        line.len() == 0 || line.last() != '\r',
    ensures
        lines_of(a + line + seq!['\n']) == lines_of(a).push(line),
{
    let s = a + line + seq!['\n'];
    let none = Seq::<char>::empty();
    lemma_pieces_plain(line, '\n');
    lemma_pieces_plain(none, '\n');
    lemma_pieces_concat(a + line, none, '\n');
    assert(s =~= a + line + seq!['\n'] + none);
    if a.len() == 0 {
        assert(a + line =~= line);
        assert(pieces(a, '\n') =~= seq![none]) by {
            assert(a =~= none);
        }
        assert(pieces(s, '\n') =~= seq![line, none]);
    } else {
        let b = a.drop_last();
        assert(a =~= b + seq!['\n'] + none);
        assert(a + line =~= b + seq!['\n'] + line);
        lemma_pieces_concat(b, none, '\n');
        lemma_pieces_concat(b, line, '\n');
        lemma_pieces_nonempty(b, '\n');
        assert(pieces(a, '\n') =~= pieces(b, '\n').push(none));
        assert(pieces(s, '\n') =~= pieces(b, '\n').push(line).push(none));
    }
    assert(lines_of(s) =~= lines_of(a).push(line));
}

/// The pieces of a text stand in it between the separators: a piece ends where the text ends
/// or a separator stands, and the next one begins behind that separator.
pub proof fn lemma_piece_place(s: Seq<char>, sep: char, i: int) -> (place: (int, int))
    requires
        0 <= i < pieces(s, sep).len(),
    ensures
        0 <= place.0 <= place.1 <= s.len(),
        pieces(s, sep)[i] == s.subrange(place.0, place.1),
        i == 0 ==> place.0 == 0,
        i > 0 ==> place.0 > 0 && s[place.0 - 1] == sep,
        i < pieces(s, sep).len() - 1 ==> place.1 < s.len() && s[place.1] == sep,
        i == pieces(s, sep).len() - 1 ==> place.1 == s.len(),
    decreases s.len(),
{
    if s.len() == 0 {
        assert(pieces(s, sep)[0] =~= s.subrange(0, 0));
        (0, 0)
    } else {
        let t = s.drop_last();
        let shorter = pieces(t, sep);
        lemma_pieces_nonempty(t, sep);
        if s.last() == sep {
            if i < shorter.len() {
                let at = lemma_piece_place(t, sep, i);
                assert(t.subrange(at.0, at.1) =~= s.subrange(at.0, at.1));
                at
            } else {
                assert(pieces(s, sep)[i] =~= s.subrange(s.len() as int, s.len() as int));
                (s.len() as int, s.len() as int)
            }
        } else {
            let at = lemma_piece_place(t, sep, i);
            if i < shorter.len() - 1 {
                assert(t.subrange(at.0, at.1) =~= s.subrange(at.0, at.1));
                at
            } else {
                assert(t.subrange(at.0, at.1).push(s.last()) =~= s.subrange(
                    at.0,
                    s.len() as int,
                ));
                (at.0, s.len() as int)
            }
        }
    }
}

/// Joining two lists of parts puts the separator between what each gives on its own.
pub proof fn lemma_joined_concat(a: Seq<Seq<char>>, b: Seq<Seq<char>>, sep: Seq<char>)
    requires
        a.len() > 0,
        b.len() > 0,
    ensures
        joined(a + b, sep) == joined(a, sep) + sep + joined(b, sep),
    decreases b.len(),
{
    assert((a + b).last() == b.last());
    if b.len() == 1 {
        assert((a + b).drop_last() =~= a);
    } else {
        lemma_joined_concat(a, b.drop_last(), sep);
        assert((a + b).drop_last() =~= a + b.drop_last());
        assert(joined(a + b, sep) =~= joined(a, sep) + sep + joined(b, sep));
    }
}

/// Every part stands in the join, verbatim.
pub proof fn lemma_part_within(parts: Seq<Seq<char>>, sep: Seq<char>, i: int)
    requires
        0 <= i < parts.len(),
    ensures
        holds(joined(parts, sep), parts[i]),
    decreases parts.len(),
{
    if parts.len() == 1 {
        assert(parts[0].subrange(0, parts[0].len() as int) =~= parts[0]);
        assert(found_at(parts[0], parts[0], 0));
    } else {
        let front = joined(parts.drop_last(), sep) + sep;
        if i < parts.len() - 1 {
            lemma_part_within(parts.drop_last(), sep, i);
            lemma_has_concat(joined(parts.drop_last(), sep), sep, parts[i]);
        } else {
            let last = parts.last();
            assert(last.subrange(0, last.len() as int) =~= last);
            assert(found_at(last, last, 0));
        }
        lemma_has_concat(front, parts.last(), parts[i]);
    }
}

proof fn lemma_trimmed_start(s: Seq<char>) -> (n: int)
    ensures
        0 <= n <= s.len(),
        trimmed_start(s) == s.skip(n),
        forall|i: int| 0 <= i < n ==> white(#[trigger] s[i]),
        n < s.len() ==> !white(s[n]),
    decreases s.len(),
{
    if s.len() > 0 && white(s[0]) {
        let m = lemma_trimmed_start(s.drop_first());
        assert(s.drop_first().skip(m) =~= s.skip(m + 1));
        assert forall|i: int| 0 <= i < m + 1 implies white(#[trigger] s[i]) by {
            if i > 0 {
                assert(s[i] == s.drop_first()[i - 1]);
            }
        }
        m + 1
    } else {
        assert(s.skip(0) =~= s);
        0
    }
}

proof fn lemma_trimmed_end(s: Seq<char>) -> (n: int)
    ensures
        0 <= n <= s.len(),
        trimmed_end(s) == s.take(n),
        forall|i: int| n <= i < s.len() ==> white(#[trigger] s[i]),
        n > 0 ==> !white(s[n - 1]),
    decreases s.len(),
{
    if s.len() > 0 && white(s.last()) {
        let m = lemma_trimmed_end(s.drop_last());
        assert(s.drop_last().take(m) =~= s.take(m));
        assert forall|i: int| m <= i < s.len() implies white(#[trigger] s[i]) by {
            if i < s.len() - 1 {
                assert(s[i] == s.drop_last()[i]);
            }
        }
        m
    } else {
        assert(s.take(s.len() as int) =~= s);
        s.len() as int
    }
}

/// Trimming takes white space off both ends and nothing else: what is left stands in the
/// text, everything round it is white, and it neither begins nor ends with white space.
pub proof fn lemma_trimmed(s: Seq<char>) -> (place: (int, int))
    ensures
        0 <= place.0 <= place.1 <= s.len(),
        trimmed(s) == s.subrange(place.0, place.1),
        forall|i: int| 0 <= i < place.0 || place.1 <= i < s.len() ==> white(#[trigger] s[i]),
        trimmed(s).len() > 0 ==> !white(trimmed(s)[0]) && !white(trimmed(s).last()),
{
    let n = lemma_trimmed_start(s);
    let t = s.skip(n);
    let m = lemma_trimmed_end(t);
    assert(t.take(m) =~= s.subrange(n, n + m));
    assert forall|i: int| 0 <= i < n || n + m <= i < s.len() implies white(#[trigger] s[i]) by {
        if i >= n {
            assert(s[i] == t[i - n]);
        }
    }
    if m > 0 {
        assert(t[0] == s[n]);
        assert(s.subrange(n, n + m).last() == t[m - 1]);
    }
    (n, n + m)
}

/// A text that begins and ends with something else than white space is trimmed already.
pub proof fn lemma_trimmed_same(s: Seq<char>)
    requires
        s.len() > 0 ==> !white(s[0]) && !white(s.last()),
    ensures
        trimmed(s) == s,
{
}

/// What is kept of a text is its beginning: as many characters as are asked for, or all.
pub proof fn lemma_first_chars(s: Seq<char>, n: nat)
    ensures
        first_chars(s, n).len() == n || first_chars(s, n).len() == s.len() <= n,
        forall|i: int| 0 <= i < first_chars(s, n).len() ==> #[trigger] first_chars(s, n)[i] == s[i],
{
}

/// Putting a text on one line keeps its length, and every character but line ends.
pub proof fn lemma_flat(s: Seq<char>)
    ensures
        flat(s).len() == s.len(),
        !flat(s).contains('\n'),
        !flat(s).contains('\r'),
        forall|i: int| 0 <= i < s.len() && s[i] != '\n' && s[i] != '\r' ==> #[trigger] flat(s)[i] == s[i],
        forall|i: int| 0 <= i < s.len() && (s[i] == '\n' || s[i] == '\r') ==> #[trigger] flat(s)[i] == ' ',
{
}

/// One text comes before another where they first differ: there it holds the smaller
/// character, or it ends.
pub proof fn lemma_before(a: Seq<char>, b: Seq<char>, k: int)
    requires
        0 <= k <= a.len(),
        k <= b.len(),
        a.take(k) == b.take(k),
        k == a.len() || k == b.len() || a[k] != b[k],
    ensures
        before(a, b) <==> k < b.len() && (k == a.len() || (a[k] as u32) < (b[k] as u32)),
    decreases k,
{
    if k > 0 {
        assert(a[0] == a.take(k)[0] && b[0] == b.take(k)[0]);
        assert(k < a.len() ==> a.drop_first()[k - 1] == a[k]);
        assert(k < b.len() ==> b.drop_first()[k - 1] == b[k]);
        assert(a.drop_first().take(k - 1) =~= a.take(k).drop_first());
        assert(b.drop_first().take(k - 1) =~= b.take(k).drop_first());
        lemma_before(a.drop_first(), b.drop_first(), k - 1);
    }
}

/// A text holds a pattern exactly where the pattern is counted in it.
pub proof fn lemma_occurrences_found(s: Seq<char>, pat: Seq<char>)
    requires
        pat.len() > 0,
    ensures
        occurrences(s, pat) > 0 <==> holds(s, pat),
    decreases s.len(),
{
    if s.len() < pat.len() {
        if holds(s, pat) {
            let i = choose|i: int| found_at(s, pat, i);
            assert(found_at(s, pat, i));
        }
    } else if !begins(s, pat) {
        let t = s.skip(1);
        lemma_occurrences_found(t, pat);
        if holds(s, pat) {
            let i = choose|i: int| found_at(s, pat, i);
            assert(i > 0);
            assert(t.subrange(i - 1, i - 1 + pat.len()) =~= s.subrange(i, i + pat.len()));
            assert(found_at(t, pat, i - 1));
        }
        if holds(t, pat) {
            let i = choose|i: int| found_at(t, pat, i);
            assert(s.subrange(i + 1, i + 1 + pat.len()) =~= t.subrange(i, i + pat.len()));
            assert(found_at(s, pat, i + 1));
        }
    }
}

/// Replacing goes from left to right: where the pattern stands first, what is before it
/// stays, the new text takes its place, and the rest is replaced on its own.
pub proof fn lemma_replaced_first(s: Seq<char>, from: Seq<char>, to: Seq<char>, i: int)
    requires
        from.len() > 0,
        found_at(s, from, i),
        forall|j: int| 0 <= j < i ==> !found_at(s, from, j),
    ensures
        replaced(s, from, to) == s.take(i) + to + replaced(s.skip(i + from.len()), from, to),
    decreases i,
{
    if i == 0 {
        assert(s.take(0) + to =~= to);
        assert(s.skip(i + from.len()) =~= s.skip(from.len() as int));
    } else {
        assert(!found_at(s, from, 0));
        let t = s.skip(1);
        assert(t.subrange(i - 1, i - 1 + from.len()) =~= s.subrange(i, i + from.len()));
        assert forall|j: int| 0 <= j < i - 1 implies !found_at(t, from, j) by {
            if found_at(t, from, j) {
                assert(s.subrange(j + 1, j + 1 + from.len()) =~= t.subrange(j, j + from.len()));
                assert(found_at(s, from, j + 1));
            }
        }
        lemma_replaced_first(t, from, to, i - 1);
        assert(t.skip(i - 1 + from.len()) =~= s.skip(i + from.len()));
        assert(seq![s[0]] + t.take(i - 1) =~= s.take(i));
        assert(seq![s[0]] + (t.take(i - 1) + to + replaced(s.skip(i + from.len()), from, to))
            =~= s.take(i) + to + replaced(s.skip(i + from.len()), from, to));
    }
}

/// A text holds what stands in the middle of it.
pub proof fn lemma_middle(a: Seq<char>, b: Seq<char>, c: Seq<char>)
    ensures
        holds(a + b + c, b),
{
    let s = a + b + c;
    assert(s.subrange(a.len() as int, (a.len() + b.len()) as int) =~= b);
    assert(found_at(s, b, a.len() as int));
}

/// A text that begins with two texts, one behind the other, begins with the first.
pub proof fn lemma_begins_first(t: Seq<char>, a: Seq<char>, b: Seq<char>)
    requires
        begins(t, a + b),
    ensures
        begins(t, a),
{
    assert(t.subrange(0, a.len() as int) =~= t.subrange(0, (a + b).len() as int).take(
        a.len() as int,
    ));
    assert((a + b).take(a.len() as int) =~= a);
}

/// A text holds what its beginning ends with.
pub proof fn lemma_begins_holds(t: Seq<char>, a: Seq<char>, b: Seq<char>)
    requires
        begins(t, a + b),
    ensures
        holds(t, b),
{
    let ab = a + b;
    assert(t.subrange(a.len() as int, (a.len() + b.len()) as int) =~= t.subrange(
        0,
        ab.len() as int,
    ).skip(a.len() as int));
    assert(ab.skip(a.len() as int) =~= b);
    assert(found_at(t, b, a.len() as int));
}

/// What follows a text takes no occurrence away from it.
pub proof fn lemma_occurrences_grow(a: Seq<char>, b: Seq<char>, pat: Seq<char>)
    ensures
        occurrences(a + b, pat) >= occurrences(a, pat),
    decreases a.len(),
{
    if pat.len() > 0 && a.len() >= pat.len() {
        let n = pat.len() as int;
        assert((a + b).subrange(0, n) =~= a.subrange(0, n));
        if begins(a, pat) {
            assert((a + b).skip(n) =~= a.skip(n) + b);
            lemma_occurrences_grow(a.skip(n), b, pat);
        } else {
            assert((a + b).skip(1) =~= a.skip(1) + b);
            lemma_occurrences_grow(a.skip(1), b, pat);
        }
    }
}

/// A line put at the end of a text whose last line is whole becomes its last piece but the
/// empty one behind it.
pub proof fn lemma_piece_added(a: Seq<char>, line: Seq<char>)
    requires
        a.len() == 0 || a.last() == '\n',
        !line.contains('\n'),
    ensures
        pieces(a, '\n').last().len() == 0,
        pieces(a + line, '\n') == pieces(a, '\n').drop_last().push(line),
        pieces(a + line + seq!['\n'], '\n') == pieces(a, '\n').drop_last().push(line).push(
            Seq::empty(),
        ),
{
    let s = a + line + seq!['\n'];
    let none = Seq::<char>::empty();
    lemma_pieces_plain(line, '\n');
    lemma_pieces_plain(none, '\n');
    lemma_pieces_concat(a + line, none, '\n');
    assert(s =~= a + line + seq!['\n'] + none);
    if a.len() == 0 {
        assert(a + line =~= line);
        assert(a =~= none);
        assert(pieces(a, '\n') =~= seq![none]);
        assert(pieces(a, '\n').drop_last().push(line) =~= seq![line]);
    } else {
        let b = a.drop_last();
        assert(a =~= b + seq!['\n'] + none);
        assert(a + line =~= b + seq!['\n'] + line);
        lemma_pieces_concat(b, none, '\n');
        lemma_pieces_concat(b, line, '\n');
        assert(pieces(a, '\n') =~= pieces(b, '\n').push(none));
        assert(pieces(a, '\n').drop_last() =~= pieces(b, '\n'));
        assert(pieces(a + line, '\n') =~= pieces(b, '\n').push(line));
    }
    assert(pieces(s, '\n') =~= pieces(a + line, '\n').push(none));
}

/// Two texts without a character have none of it together.
pub proof fn lemma_lacks_concat(a: Seq<char>, b: Seq<char>, c: char)
    requires
        !a.contains(c),
        !b.contains(c),
    ensures
        !(a + b).contains(c),
{
    if (a + b).contains(c) {
        let i = (a + b).index_of(c);
        if i < a.len() {
            assert(a[i] == c);
        } else {
            assert(b[i - a.len()] == c);
        }
    }
}

/// Replacing one character by another keeps the length and every other character.
pub proof fn lemma_replaced_each(s: Seq<char>, c: char, d: char)
    ensures
        replaced(s, seq![c], seq![d]).len() == s.len(),
        forall|i: int|
            0 <= i < s.len() ==> #[trigger] replaced(s, seq![c], seq![d])[i] == (if s[i] == c {
                d
            } else {
                s[i]
            }),
    decreases s.len(),
{
    let r = replaced(s, seq![c], seq![d]);
    if s.len() > 0 {
        let t = s.skip(1);
        lemma_replaced_each(t, c, d);
        assert(begins(s, seq![c]) <==> s[0] == c) by {
            assert(s.subrange(0, 1)[0] == s[0]);
            if s[0] == c {
                assert(s.subrange(0, 1) =~= seq![c]);
            }
        }
        assert forall|i: int| 0 <= i < s.len() implies #[trigger] r[i] == (if s[i] == c {
            d
        } else {
            s[i]
        }) by {
            if i > 0 {
                assert(r[i] == replaced(t, seq![c], seq![d])[i - 1]);
                assert(t[i - 1] == s[i]);
            }
        }
    }
}

/// A last line without a line feed counts as a line and stays as it is, a carriage return at
/// its end too; before a line feed one carriage return belongs to the ending.
pub proof fn lemma_line_endings(a: Seq<char>, line: Seq<char>)
    requires
        a.len() == 0 || a.last() == '\n',
        !line.contains('\n'),
    ensures
        line.len() > 0 ==> lines_of(a + line) == lines_of(a).push(line),
        lines_of(a + line + seq!['\r', '\n']) == lines_of(a).push(line),
{
    lemma_pieces_nonempty(a, '\n');
    lemma_piece_added(a, line);
    if line.len() > 0 {
        assert(lines_of(a + line) =~= lines_of(a).push(line));
    }
    let whole = line.push('\r');
    assert(!whole.contains('\n')) by {
        if whole.contains('\n') {
            let i = whole.index_of('\n');
            assert(line[i] == '\n');
        }
    }
    lemma_piece_added(a, whole);
    assert(a + line + seq!['\r', '\n'] =~= a + whole + seq!['\n']);
    assert(whole.drop_last() =~= line);
    assert(lines_of(a + whole + seq!['\n']) =~= lines_of(a).push(line));
}

} // verus!
