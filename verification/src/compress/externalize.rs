//! Files larger than the externalize threshold are replaced by a pointer file plus a
//! short excerpt; the full bytes go to `~/.tsk/<session>/ext/<sha1>.txt`.

use vstd::prelude::*;

use crate::number;
use crate::number::decimal_of;
use crate::path;
use crate::path::joined_path;
use crate::storage;
use crate::storage::{ext_path, text_digest};
use crate::text;
use crate::text::byte_count;

verus! {

/// The longest beginning of `s` that takes at most `n` bytes.
pub open spec fn fitting(s: Seq<char>, n: nat) -> Seq<char>
    decreases s.len(),
{
    if s.len() == 0 || byte_count(s) <= n {
        s
    } else {
        fitting(s.drop_last(), n)
    }
}

/// `s` up to and with its last line feed; nothing where it has none.
pub open spec fn whole_lines(s: Seq<char>) -> Seq<char>
    decreases s.len(),
{
    if s.len() == 0 || s.last() == '\n' {
        s
    } else {
        whole_lines(s.drop_last())
    }
}

/// The first `n` bytes of `s`, cut between characters and, where that leaves a line feed,
/// behind the last one.
pub open spec fn head_of(s: Seq<char>, n: nat) -> Seq<char> {
    if byte_count(s) <= n {
        s
    } else {
        let cut = fitting(s, n);
        if cut.contains('\n') {
            whole_lines(cut)
        } else {
            cut
        }
    }
}

/// Bytes that the UTF-8 form of `c` takes.
fn width(c: char) -> (n: usize)
    ensures
        n == byte_count(seq![c]),
{
    proof {
        assert(seq![c].drop_first() =~= Seq::empty());
        assert(vstd::utf8::encode_utf8(seq![c].drop_first()) =~= Seq::<u8>::empty());
    }
    let u: u32 = c as u32;
    if u <= 0x7f {
        1
    } else if u <= 0x7ff {
        2
    } else if u <= 0xffff {
        3
    } else {
        4
    }
}

proof fn lemma_whole_lines(s: Seq<char>)
    ensures
        !s.contains('\n') ==> whole_lines(s).len() == 0,
        s.contains('\n') ==> whole_lines(s).len() > 0,
    decreases s.len(),
{
    if s.len() > 0 && s.last() != '\n' {
        lemma_whole_lines(s.drop_last());
        if s.contains('\n') {
            let i = s.index_of('\n');
            assert(s.drop_last()[i] == '\n');
        }
        if s.drop_last().contains('\n') {
            let i = s.drop_last().index_of('\n');
            assert(s[i] == '\n');
        }
    } else if s.len() > 0 {
        assert(s[s.len() - 1] == '\n');
    }
}

proof fn lemma_prefix_bytes(s: Seq<char>, n: int)
    requires
        0 <= n <= s.len(),
    ensures
        byte_count(s.take(n)) <= byte_count(s),
{
    assert(s.take(n) + s.skip(n) =~= s);
    text::lemma_byte_count_concat(s.take(n), s.skip(n));
}

proof fn lemma_fitting(s: Seq<char>, n: nat)
    ensures
        byte_count(fitting(s, n)) <= n,
    decreases s.len(),
{
    if s.len() == 0 {
        assert(vstd::utf8::encode_utf8(s) =~= Seq::<u8>::empty());
    } else if byte_count(s) > n {
        lemma_fitting(s.drop_last(), n);
    }
}

proof fn lemma_whole_lines_prefix(s: Seq<char>)
    ensures
        whole_lines(s).len() <= s.len(),
        whole_lines(s) == s.take(whole_lines(s).len() as int),
    decreases s.len(),
{
    if s.len() == 0 || s.last() == '\n' {
        assert(s.take(s.len() as int) =~= s);
    } else {
        lemma_whole_lines_prefix(s.drop_last());
        let n = whole_lines(s).len() as int;
        assert(s.drop_last().take(n) =~= s.take(n));
    }
}

/// A head keeps to the bytes that it is given.
pub proof fn lemma_head_fits(s: Seq<char>, n: nat)
    ensures
        byte_count(head_of(s, n)) <= n,
{
    if byte_count(s) > n {
        let cut = fitting(s, n);
        lemma_fitting(s, n);
        lemma_whole_lines_prefix(cut);
        lemma_prefix_bytes(cut, whole_lines(cut).len() as int);
    }
}

/// First `n` bytes, cut on a char boundary, at the last newline before it.
pub fn head(s: &str, n: usize) -> (r: String)
    ensures
        r@ == head_of(s@, n as nat),
{
    let bytes = text::byte_len(s);
    if bytes <= n {
        return text::copy(s);
    }
    let v = text::chars(s);
    let mut i: usize = v.len();
    let mut total: usize = bytes;
    assert(v@.take(i as int) =~= v@);
    while i > 0 && total > n
        invariant
            i <= v@.len(),
            total == byte_count(v@.take(i as int)),
            fitting(v@.take(i as int), n as nat) == fitting(v@, n as nat),
        decreases i,
    {
        proof {
            assert(v@.take(i as int).drop_last() =~= v@.take(i - 1));
            assert(v@.take(i - 1).push(v@[i - 1]) =~= v@.take(i as int));
            text::lemma_encode_push(v@.take(i - 1), v@[i - 1]);
        }
        total = total - width(v[i - 1]);
        i = i - 1;
    }
    let ghost cut = v@.take(i as int);
    proof {
        assert(cut == fitting(s@, n as nat));
        lemma_whole_lines(cut);
    }
    let mut j: usize = i;
    while j > 0 && v[j - 1] != '\n'
        invariant
            j <= i <= v@.len(),
            cut == v@.take(i as int),
            whole_lines(v@.take(j as int)) == whole_lines(cut),
        decreases j,
    {
        assert(v@.take(j as int).drop_last() =~= v@.take(j - 1));
        j = j - 1;
    }
    assert(v@.take(j as int) =~= v@.subrange(0, j as int));
    assert(cut =~= v@.subrange(0, i as int));
    if j > 0 {
        text::slice(&v, 0, j)
    } else {
        text::slice(&v, 0, i)
    }
}

/// `pointer` is what the `Read` is redirected to; `full` holds the whole original.
#[derive(Debug, PartialEq)]
pub struct Externalized {
    pub pointer: String,
    /// Where the full original text goes: `ext/<sha1>.txt`. The pointer
    /// names this exact file so a later `Read` can retrieve the whole content.
    pub full: String,
    /// Bytes of the original: what was kept out of context.
    pub bytes: usize,
    /// Size of the pointer file: what actually entered the context.
    pub pointer_bytes: usize,
    /// What the pointer file says.
    pub pointer_text: String,
}

/// The file that takes the whole of an externalized text.
pub open spec fn full_file(home: Seq<char>, session: Seq<char>, content: Seq<char>) -> Seq<char> {
    joined_path(ext_path(home, session), text_digest(content) + ".txt"@)
}

/// The file that a `Read` of an externalized text is sent to.
pub open spec fn pointer_file(
    home: Seq<char>,
    session: Seq<char>,
    content: Seq<char>,
) -> Seq<char> {
    joined_path(ext_path(home, session), text_digest(content) + ".pointer.txt"@)
}

/// How much of the text a pointer file shows.
pub const EXCERPT_BYTES: usize = 1024;

/// What a pointer file says of a text kept in `full`.
pub open spec fn pointer_says(full: Seq<char>, content: Seq<char>) -> Seq<char> {
    "[TSK EXTERNALIZED output of Read | original "@ + decimal_of(byte_count(content))
        + " bytes | full: "@ + full
        + "]\n[TSK excerpt: head 1KB follows; retrieve full content via Read on the path above]\n"@
        + head_of(content, EXCERPT_BYTES as nat)
}

impl Externalized {
    /// Is this the plan for keeping `content` out of the context of `session`?
    pub open spec fn keeps(
        self,
        home: Seq<char>,
        session: Seq<char>,
        content: Seq<char>,
    ) -> bool {
        &&& self.full@ == full_file(home, session, content)
        &&& self.pointer@ == pointer_file(home, session, content)
        &&& self.bytes == byte_count(content)
        &&& self.pointer_text@ == pointer_says(self.full@, content)
        &&& self.pointer_bytes == byte_count(self.pointer_text@)
    }
}

/// Where the whole of `content` goes, and the pointer that stands for it. The caller
/// writes `content` to `full` and `pointer_text` to `pointer`.
pub fn externalize(home: &str, session_id: &str, content: &str) -> (r: Externalized)
    ensures
        r.keeps(home@, session_id@, content@),
{
    let bytes = text::byte_len(content);
    let dir = storage::ext_dir(home, session_id);
    let mut full_name = storage::digest_text(content);
    let mut pointer_name = text::copy(full_name.as_str());
    full_name.append(".txt");
    pointer_name.append(".pointer.txt");
    let full = path::join(dir.as_str(), full_name.as_str());
    let pointer = path::join(dir.as_str(), pointer_name.as_str());
    let excerpt = head(content, EXCERPT_BYTES);
    let mut s = text::copy("[TSK EXTERNALIZED output of Read | original ");
    s.append(number::decimal(bytes as u64).as_str());
    s.append(" bytes | full: ");
    s.append(full.as_str());
    s.append(
        "]\n[TSK excerpt: head 1KB follows; retrieve full content via Read on the path above]\n",
    );
    s.append(excerpt.as_str());
    let pointer_bytes = text::byte_len(s.as_str());
    Externalized { pointer, full, bytes, pointer_bytes, pointer_text: s }
}

/// The pointer shows the exact path of the file that holds the whole text: cutting the
/// excerpt never loses the way to the rest.
pub proof fn lemma_pointer_names_full(full: Seq<char>, content: Seq<char>)
    ensures
        text::holds(pointer_says(full, content), "full: "@ + full),
{
    reveal_strlit(" bytes | full: ");
    reveal_strlit("full: ");
    let a = "[TSK EXTERNALIZED output of Read | original "@ + decimal_of(byte_count(content));
    let whole = pointer_says(full, content);
    let want = "full: "@ + full;
    let at = a.len() + 9;
    assert(whole.subrange(at as int, (at + want.len()) as int) =~= want);
    assert(text::found_at(whole, want, at as int));
}

proof fn lemma_hex_no_slash(bytes: Seq<u8>)
    ensures
        !number::hex_of(bytes).contains('/'),
    decreases bytes.len(),
{
    let h = number::hex_of(bytes);
    if bytes.len() > 0 {
        let front = number::hex_of(bytes.drop_last());
        lemma_hex_no_slash(bytes.drop_last());
        let b = bytes.last();
        assert(number::hex_digit((b / 16) as nat) != '/');
        assert(number::hex_digit((b % 16) as nat) != '/');
        if h.contains('/') {
            let i = h.index_of('/');
            if i < front.len() {
                assert(front[i] == '/');
            }
        }
    }
}

proof fn lemma_ext_path_shape(home: Seq<char>, session: Seq<char>)
    ensures
        ext_path(home, session).len() > 0,
        ext_path(home, session).last() == 't',
{
    reveal_strlit("ext");
    reveal_strlit("/");
}

/// A file that is named after the digest of a text, and kept with the externalized ones, lies
/// under their directory.
pub proof fn lemma_kept_under_ext(
    home: Seq<char>,
    session: Seq<char>,
    content: Seq<char>,
    ending: Seq<char>,
)
    requires
        ending.len() > 1,
        !ending.contains('/'),
    ensures
        path::under(
            joined_path(ext_path(home, session), text_digest(content) + ending),
            ext_path(home, session),
        ),
{
    reveal_strlit(".");
    let name = text_digest(content) + ending;
    lemma_hex_no_slash(storage::sha1_of(vstd::utf8::encode_utf8(content)));
    if name.contains('/') {
        let i = name.index_of('/');
        if i < text_digest(content).len() {
            assert(text_digest(content)[i] == '/');
        } else {
            assert(ending[i - text_digest(content).len()] == '/');
        }
    }
    assert(name.len() > 1);
    assert("."@.len() == 1);
    lemma_ext_path_shape(home, session);
    path::lemma_child_under(ext_path(home, session), name);
}

/// The full text and the pointer lie under the directory of externalized texts, where a
/// `Read` always passes: reading a text back never externalizes it again.
pub proof fn lemma_read_back(home: Seq<char>, session: Seq<char>, content: Seq<char>)
    ensures
        path::under(full_file(home, session, content), ext_path(home, session)),
        path::under(pointer_file(home, session, content), ext_path(home, session)),
{
    reveal_strlit(".txt");
    reveal_strlit(".pointer.txt");
    lemma_kept_under_ext(home, session, content, ".txt"@);
    lemma_kept_under_ext(home, session, content, ".pointer.txt"@);
}

proof fn lemma_bytes_bounded(s: Seq<char>)
    ensures
        byte_count(s) <= 4 * s.len(),
    decreases s.len(),
{
    if s.len() == 0 {
        assert(vstd::utf8::encode_utf8(s) =~= Seq::<u8>::empty());
    } else {
        let c = s.last();
        lemma_bytes_bounded(s.drop_last());
        assert(s =~= s.drop_last().push(c));
        text::lemma_encode_push(s.drop_last(), c);
        assert(seq![c].drop_first() =~= Seq::empty());
        assert(vstd::utf8::encode_utf8(seq![c].drop_first()) =~= Seq::<u8>::empty());
    }
}

/// A pointer is smaller than the text that it stands for, as long as the path that it names
/// leaves it room.
pub proof fn lemma_pointer_smaller(full: Seq<char>, content: Seq<char>)
    requires
        byte_count(full) + 2000 <= byte_count(content) <= u64::MAX,
    ensures
        byte_count(pointer_says(full, content)) < byte_count(content),
{
    reveal_strlit("[TSK EXTERNALIZED output of Read | original ");
    reveal_strlit(" bytes | full: ");
    reveal_strlit(
        "]\n[TSK excerpt: head 1KB follows; retrieve full content via Read on the path above]\n",
    );
    let a = "[TSK EXTERNALIZED output of Read | original "@;
    let digits = decimal_of(byte_count(content));
    let b = " bytes | full: "@;
    let c =
        "]\n[TSK excerpt: head 1KB follows; retrieve full content via Read on the path above]\n"@;
    let excerpt = head_of(content, EXCERPT_BYTES as nat);
    lemma_head_fits(content, EXCERPT_BYTES as nat);
    number::lemma_decimal_length(byte_count(content));
    lemma_bytes_bounded(a);
    lemma_bytes_bounded(digits);
    lemma_bytes_bounded(b);
    lemma_bytes_bounded(c);
    text::lemma_byte_count_concat(a, digits);
    text::lemma_byte_count_concat(a + digits, b);
    text::lemma_byte_count_concat(a + digits + b, full);
    text::lemma_byte_count_concat(a + digits + b + full, c);
    text::lemma_byte_count_concat(a + digits + b + full + c, excerpt);
}

proof fn lemma_fitting_most(s: Seq<char>, n: nat)
    ensures
        fitting(s, n).len() <= s.len(),
        fitting(s, n) == s.take(fitting(s, n).len() as int),
        forall|k: int|
            fitting(s, n).len() < k <= s.len() ==> byte_count(#[trigger] s.take(k)) > n,
    decreases s.len(),
{
    if s.len() == 0 || byte_count(s) <= n {
        assert(s.take(s.len() as int) =~= s);
    } else {
        let t = s.drop_last();
        lemma_fitting_most(t, n);
        let m = fitting(s, n).len();
        assert(t.take(m as int) =~= s.take(m as int));
        assert forall|k: int| m < k <= s.len() implies byte_count(#[trigger] s.take(k)) > n by {
            if k < s.len() {
                assert(t.take(k) =~= s.take(k));
            } else {
                assert(s.take(k) =~= s);
            }
        }
    }
}

proof fn lemma_whole_lines_most(s: Seq<char>)
    ensures
        whole_lines(s).len() > 0 ==> whole_lines(s).last() == '\n',
        forall|k: int| whole_lines(s).len() <= k < s.len() ==> #[trigger] s[k] != '\n',
    decreases s.len(),
{
    if s.len() > 0 && s.last() != '\n' {
        let t = s.drop_last();
        lemma_whole_lines_most(t);
        assert forall|k: int| whole_lines(s).len() <= k < s.len() implies #[trigger] s[k]
            != '\n' by {
            if k < t.len() {
                assert(t[k] == s[k]);
            }
        }
    }
}

/// A head is the beginning of the text: all of it where that fits, else its whole lines as
/// far as they fit, else, where not even one line fits, as many characters as do. Nothing
/// longer of that kind fits.
pub proof fn lemma_head(s: Seq<char>, n: nat)
    ensures
        byte_count(s) <= n ==> head_of(s, n) == s,
        head_of(s, n).len() <= s.len(),
        head_of(s, n) == s.take(head_of(s, n).len() as int),
        byte_count(s) > n ==> forall|k: int|
            head_of(s, n).len() < k <= s.len() && byte_count(#[trigger] s.take(k)) <= n ==> s[k - 1]
                != '\n' && head_of(s, n).len() > 0 && head_of(s, n).last() == '\n',
{
    if byte_count(s) <= n {
        assert(s.take(s.len() as int) =~= s);
    } else {
        let cut = fitting(s, n);
        lemma_fitting_most(s, n);
        if cut.contains('\n') {
            let h = whole_lines(cut);
            lemma_whole_lines(cut);
            lemma_whole_lines_prefix(cut);
            lemma_whole_lines_most(cut);
            assert(cut.take(h.len() as int) =~= s.take(h.len() as int));
            assert forall|k: int|
                h.len() < k <= s.len() && byte_count(#[trigger] s.take(k)) <= n implies s[k - 1]
                != '\n' by {
                assert(k <= cut.len());
                assert(cut[k - 1] == s[k - 1]);
            }
        }
    }
}

/// The pointer says how large the original is and where it is kept, and ends with the head
/// of it.
pub proof fn lemma_pointer_says(full: Seq<char>, content: Seq<char>)
    ensures
        text::begins(
            pointer_says(full, content),
            "[TSK EXTERNALIZED output of Read | original "@ + decimal_of(byte_count(content))
                + " bytes | full: "@ + full + "]\n"@,
        ),
        pointer_says(full, content).len() >= head_of(content, 1024).len(),
        pointer_says(full, content).skip(
            pointer_says(full, content).len() - head_of(content, 1024).len(),
        ) == head_of(content, 1024),
{
    reveal_strlit("]\n");
    reveal_strlit("]\n[TSK excerpt: head 1KB follows; retrieve full content via Read on the path above]\n");
    let note = "]\n[TSK excerpt: head 1KB follows; retrieve full content via Read on the path above]\n"@;
    let front = "[TSK EXTERNALIZED output of Read | original "@ + decimal_of(byte_count(content))
        + " bytes | full: "@ + full;
    let h = head_of(content, 1024);
    let p = pointer_says(full, content);
    assert(p == front + note + h);
    assert(note.take(2) =~= "]\n"@);
    let says = front + "]\n"@;
    assert(p.subrange(0, says.len() as int) =~= says) by {
        assert forall|i: int| 0 <= i < says.len() implies p[i] == says[i] by {
            if i >= front.len() {
                assert(note.take(2)[i - front.len()] == note[i - front.len()]);
            }
        }
    }
    assert(p.skip(p.len() - h.len()) =~= h);
}

/// The full text and the pointer to it are two files, and the same content is always kept in
/// the same two.
pub proof fn lemma_two_files(home: Seq<char>, session: Seq<char>, content: Seq<char>)
    ensures
        full_file(home, session, content) != pointer_file(home, session, content),
        pointer_file(home, session, content).len() == full_file(home, session, content).len() + 8,
{
    reveal_strlit(".txt");
    reveal_strlit(".pointer.txt");
    let d = text_digest(content);
    let a = d + ".txt"@;
    let b = d + ".pointer.txt"@;
    lemma_hex_no_slash(storage::sha1_of(vstd::utf8::encode_utf8(content)));
    assert(a[0] != '/' && b[0] != '/') by {
        if d.len() > 0 {
            assert(d.contains(d[0]));
        }
    }
    path::lemma_joined_path(ext_path(home, session), a);
    path::lemma_joined_path(ext_path(home, session), b);
}

} // verus!
