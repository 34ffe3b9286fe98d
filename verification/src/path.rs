//! Paths as texts with forward slashes, read component by component. A path of a Windows
//! host is brought into this form first.

use vstd::prelude::*;

use crate::text;
use crate::text::{joined, pieces, texts};

verus! {

/// Does piece `i` of a path stand for a component? Empty pieces and single dots do not,
/// except at the front: an empty piece there is the root, a dot the current directory.
pub open spec fn counts(p: Seq<Seq<char>>, i: int) -> bool {
    ||| p[i].len() > 0 && p[i] != "."@
    ||| i == 0 && p[i].len() > 0
    ||| i == 0 && p.len() > 1
}

/// The pieces among the first `n` that stand for components.
pub open spec fn marks_upto(p: Seq<Seq<char>>, n: nat) -> Seq<int>
    decreases n,
{
    if n == 0 {
        Seq::empty()
    } else {
        let before = marks_upto(p, (n - 1) as nat);
        if counts(p, n - 1) {
            before.push(n - 1)
        } else {
            before
        }
    }
}

/// Where the components of a path stand among its pieces.
pub open spec fn marks(p: Seq<Seq<char>>) -> Seq<int> {
    marks_upto(p, p.len())
}

/// The component that a piece stands for; the root is a slash.
pub open spec fn component(piece: Seq<char>) -> Seq<char> {
    if piece.len() == 0 {
        "/"@
    } else {
        piece
    }
}

/// The components of a path.
pub open spec fn components_of(path: Seq<char>) -> Seq<Seq<char>> {
    let p = pieces(path, '/');
    marks(p).map_values(|i: int| component(p[i]))
}

/// Is `base` made of the first components of `path`?
pub open spec fn under(path: Seq<char>, base: Seq<char>) -> bool {
    let b = components_of(base);
    let c = components_of(path);
    b.len() <= c.len() && c.take(b.len() as int) == b
}

/// `path` from its component number `k` on, without slashes and dots at the end.
pub open spec fn from_component(path: Seq<char>, k: nat) -> Seq<char> {
    let p = pieces(path, '/');
    let m = marks(p);
    if k >= m.len() {
        Seq::empty()
    } else if m.len() == 1 {
        component(p[m[0]])
    } else {
        joined(p.subrange(m[k as int], m.last() + 1), "/"@)
    }
}

/// What is left of `path` below `base`.
pub open spec fn below(path: Seq<char>, base: Seq<char>) -> Seq<char> {
    from_component(path, components_of(base).len())
}

/// The last component, where it names a file.
pub open spec fn file_name_of(path: Seq<char>) -> Option<Seq<char>> {
    let c = components_of(path);
    if c.len() == 0 || c.last() == "/"@ || c.last() == "."@ || c.last() == ".."@ {
        None
    } else {
        Some(c.last())
    }
}

/// Where the last dot stands.
pub open spec fn last_dot(name: Seq<char>) -> Option<nat>
    decreases name.len(),
{
    if name.len() == 0 {
        None
    } else if name.last() == '.' {
        Some((name.len() - 1) as nat)
    } else {
        last_dot(name.drop_last())
    }
}

/// The part of the file name behind its last dot; a name that only begins with a dot has
/// none.
pub open spec fn extension_of(path: Seq<char>) -> Option<Seq<char>> {
    match file_name_of(path) {
        Some(name) => match last_dot(name) {
            Some(d) => if d > 0 {
                Some(name.skip(d as int + 1))
            } else {
                None
            },
            None => None,
        },
        None => None,
    }
}

/// `name` inside `base`; an absolute `name` stands alone.
pub open spec fn joined_path(base: Seq<char>, name: Seq<char>) -> Seq<char> {
    if name.len() > 0 && name[0] == '/' {
        name
    } else if base.len() == 0 || base.last() == '/' {
        base + name
    } else {
        base + "/"@ + name
    }
}

/// The marks lie among the first `n` pieces and ascend.
pub proof fn lemma_marks(p: Seq<Seq<char>>, n: nat)
    requires
        n <= p.len(),
    ensures
        marks_upto(p, n).len() <= n,
        forall|k: int|
            0 <= k < marks_upto(p, n).len() ==> 0 <= #[trigger] marks_upto(p, n)[k] < n,
        forall|j: int, k: int|
            0 <= j < k < marks_upto(p, n).len() ==> #[trigger] marks_upto(p, n)[j]
                < #[trigger] marks_upto(p, n)[k],
    decreases n,
{
    if n > 0 {
        lemma_marks(p, (n - 1) as nat);
    }
}

/// A path cut into pieces, and which of them are components.
struct Cut {
    pieces: Vec<String>,
    marks: Vec<usize>,
}

impl Cut {
    spec fn of(self, path: Seq<char>) -> bool {
        &&& texts(self.pieces@) == pieces(path, '/')
        &&& self.marks@.len() == marks(pieces(path, '/')).len()
        &&& forall|k: int|
            0 <= k < self.marks@.len() ==> #[trigger] self.marks@[k] == marks(
                pieces(path, '/'),
            )[k]
        &&& forall|k: int|
            0 <= k < self.marks@.len() ==> #[trigger] self.marks@[k] < self.pieces@.len()
    }
}

fn cut(path: &str) -> (r: Cut)
    ensures
        r.of(path@),
{
    let p = text::split(path, '/');
    let mut m: Vec<usize> = Vec::new();
    let mut i: usize = 0;
    let ghost all = pieces(path@, '/');
    while i < p.len()
        invariant
            i <= p@.len(),
            texts(p@) == all,
            m@.len() == marks_upto(all, i as nat).len(),
            forall|k: int| 0 <= k < m@.len() ==> #[trigger] m@[k] == marks_upto(all, i as nat)[k],
            forall|k: int| 0 <= k < m@.len() ==> #[trigger] m@[k] < p@.len(),
        decreases p@.len() - i,
    {
        assert(texts(p@)[i as int] == p@[i as int]@);
        let empty = p[i].as_str().is_empty();
        if i == 0 {
            if !empty || p.len() > 1 {
                m.push(i);
            }
        } else if !empty && !text::same(p[i].as_str(), ".") {
            m.push(i);
        }
        i = i + 1;
    }
    Cut { pieces: p, marks: m }
}

/// The component that a piece stands for; the root is a slash.
fn component_text(piece: &str) -> (r: String)
    ensures
        r@ == component(piece@),
{
    if piece.is_empty() {
        text::copy("/")
    } else {
        text::copy(piece)
    }
}

/// The components of a path.
pub fn components(path: &str) -> (r: Vec<String>)
    ensures
        texts(r@) == components_of(path@),
{
    let c = cut(path);
    let mut out: Vec<String> = Vec::new();
    let mut i: usize = 0;
    let ghost all = components_of(path@);
    while i < c.marks.len()
        invariant
            c.of(path@),
            i <= c.marks@.len(),
            all == components_of(path@),
            out@.len() == i,
            forall|k: int| 0 <= k < i ==> (#[trigger] out@[k])@ == all[k],
        decreases c.marks@.len() - i,
    {
        assert(texts(c.pieces@)[c.marks@[i as int] as int] == c.pieces@[c.marks@[i as int] as int]@);
        out.push(component_text(c.pieces[c.marks[i]].as_str()));
        i = i + 1;
    }
    assert(texts(out@) =~= all);
    out
}

/// Is `base` made of the first components of `path`?
pub fn starts_with(path: &str, base: &str) -> (r: bool)
    ensures
        r == under(path@, base@),
{
    let c = components(path);
    let b = components(base);
    assert(texts(c@).len() == c@.len() && texts(b@).len() == b@.len());
    if b.len() > c.len() {
        return false;
    }
    let mut i: usize = 0;
    while i < b.len()
        invariant
            i <= b@.len() <= c@.len(),
            texts(c@) == components_of(path@),
            texts(b@) == components_of(base@),
            forall|k: int| 0 <= k < i ==> texts(c@)[k] == texts(b@)[k],
        decreases b@.len() - i,
    {
        assert(texts(c@)[i as int] == c@[i as int]@);
        assert(texts(b@)[i as int] == b@[i as int]@);
        if !text::same(c[i].as_str(), b[i].as_str()) {
            assert(texts(c@).take(b@.len() as int)[i as int] != texts(b@)[i as int]);
            return false;
        }
        i = i + 1;
    }
    assert(texts(c@).take(b@.len() as int) =~= texts(b@));
    true
}

/// What is left of `path` below `base`, where `base` is made of its first components.
pub fn strip_prefix(path: &str, base: &str) -> (r: Option<String>)
    ensures
        r is Some <==> under(path@, base@),
        r matches Some(rest) ==> rest@ == below(path@, base@),
{
    if !starts_with(path, base) {
        return None;
    }
    let b = components(base);
    assert(texts(b@).len() == b@.len());
    let k = b.len();
    let c = cut(path);
    let n = c.marks.len();
    proof {
        lemma_marks(pieces(path@, '/'), pieces(path@, '/').len());
        assert(texts(c.pieces@).len() == c.pieces@.len());
    }
    if k >= n {
        return Some(String::new());
    }
    if n == 1 {
        assert(texts(c.pieces@)[c.marks@[0] as int] == c.pieces@[c.marks@[0] as int]@);
        return Some(component_text(c.pieces[c.marks[0]].as_str()));
    }
    let from: usize = c.marks[k];
    assert(c.marks@[n - 1] < c.pieces.len());
    let to: usize = c.marks[n - 1] + 1;
    let mut part: Vec<String> = Vec::new();
    let mut i: usize = from;
    while i < to
        invariant
            from <= i <= to <= c.pieces@.len(),
            part@.len() == i - from,
            forall|j: int| 0 <= j < part@.len() ==> (#[trigger] part@[j])@ == c.pieces@[from + j]@,
        decreases to - i,
    {
        part.push(text::copy(c.pieces[i].as_str()));
        i = i + 1;
    }
    assert(texts(part@) =~= texts(c.pieces@).subrange(from as int, to as int));
    Some(text::join(&part, "/"))
}

/// The last component, where it names a file.
pub fn file_name(path: &str) -> (r: Option<String>)
    ensures
        text::content(r) == file_name_of(path@),
{
    let c = components(path);
    assert(texts(c@).len() == c@.len());
    let n = c.len();
    if n == 0 {
        return None;
    }
    assert(texts(c@).last() == c@.last()@);
    let last = text::copy(c[n - 1].as_str());
    if text::same(last.as_str(), "/") || text::same(last.as_str(), ".") || text::same(
        last.as_str(),
        "..",
    ) {
        None
    } else {
        Some(last)
    }
}

/// The part of the file name behind its last dot, where it has one.
pub fn extension(path: &str) -> (r: Option<String>)
    ensures
        text::content(r) == extension_of(path@),
{
    match file_name(path) {
        None => None,
        Some(name) => {
            let v = text::chars(name.as_str());
            let mut i: usize = v.len();
            assert(v@.take(i as int) =~= v@);
            while i > 0
                invariant
                    i <= v@.len(),
                    v@ == name@,
                    last_dot(v@.take(i as int)) == last_dot(v@),
                    Some(name@) == file_name_of(path@),
                decreases i,
            {
                assert(v@.take(i as int).drop_last() =~= v@.take(i - 1));
                assert(v@.take(i as int).last() == v@[i - 1]);
                if v[i - 1] == '.' {
                    if i == 1 {
                        return None;
                    }
                    let n = v.len();
                    let s = text::slice(&v, i, n);
                    assert(s@ =~= name@.skip(i as int));
                    return Some(s);
                }
                i = i - 1;
            }
            None
        },
    }
}

/// `name` inside `base`; an absolute `name` stands alone.
pub fn join(base: &str, name: &str) -> (r: String)
    ensures
        r@ == joined_path(base@, name@),
{
    let v = text::chars(name);
    if v.len() > 0 && v[0] == '/' {
        return text::copy(name);
    }
    let b = text::chars(base);
    let mut out = text::copy(base);
    if b.len() > 0 && b[b.len() - 1] != '/' {
        out.append("/");
    }
    out.append(name);
    out
}

proof fn lemma_marks_extend(p: Seq<Seq<char>>, name: Seq<char>, n: nat)
    requires
        n <= p.len(),
        p.len() == 1 ==> p[0].len() > 0,
    ensures
        marks_upto(p.push(name), n) == marks_upto(p, n),
    decreases n,
{
    if n > 0 {
        lemma_marks_extend(p, name, (n - 1) as nat);
        assert(p.push(name)[n - 1] == p[n - 1]);
    }
}

/// A file inside a directory lies under it.
pub proof fn lemma_child_under(dir: Seq<char>, name: Seq<char>)
    requires
        dir.len() > 0,
        dir.last() != '/',
        name.len() > 0,
        name != "."@,
        !name.contains('/'),
    ensures
        under(joined_path(dir, name), dir),
{
    reveal_strlit("/");
    assert("/"@ =~= seq!['/']);
    let whole = joined_path(dir, name);
    assert(name[0] != '/') by {
        if name[0] == '/' {
            assert(name.contains('/'));
        }
    }
    assert(whole == dir + seq!['/'] + name);
    text::lemma_pieces_concat(dir, name, '/');
    text::lemma_pieces_plain(name, '/');
    let p = pieces(dir, '/');
    let q = pieces(whole, '/');
    assert(q =~= p.push(name));
    text::lemma_join_pieces(dir, '/');
    text::lemma_pieces_nonempty(dir, '/');
    lemma_marks_extend(p, name, p.len());
    assert(counts(q, p.len() as int));
    assert(marks(q) == marks(p).push(p.len() as int));
    lemma_marks(p, p.len());
    let c = components_of(whole);
    let d = components_of(dir);
    assert forall|i: int| 0 <= i < d.len() implies c[i] == d[i] by {
        assert(marks(q)[i] == marks(p)[i]);
        assert(q[marks(p)[i]] == p[marks(p)[i]]);
    }
    assert(c.take(d.len() as int) =~= d);
}

/// A path with forward slashes. Windows takes them in place of its backslashes, except in a
/// verbatim path, which stays as it is; elsewhere a backslash is part of a name.
pub open spec fn portable_of(path: Seq<char>, windows: bool) -> Seq<char> {
    if windows && !text::begins(path, "\\\\?\\"@) {
        text::replaced(path, "\\"@, "/"@)
    } else {
        path
    }
}

/// A path with forward slashes.
pub fn portable(path: &str, windows: bool) -> (r: String)
    ensures
        r@ == portable_of(path@, windows),
{
    if windows && !text::starts_with(path, "\\\\?\\") {
        proof {
            reveal_strlit("\\");
        }
        text::replace(path, "\\", "/")
    } else {
        text::copy(path)
    }
}

proof fn lemma_child_components(dir: Seq<char>, name: Seq<char>)
    requires
        dir.len() > 0,
        dir.last() != '/',
        name.len() > 0,
        name != "."@,
        !name.contains('/'),
    ensures
        joined_path(dir, name) == dir + "/"@ + name,
        pieces(joined_path(dir, name), '/') == pieces(dir, '/').push(name),
        marks(pieces(joined_path(dir, name), '/')) == marks(pieces(dir, '/')).push(
            pieces(dir, '/').len() as int,
        ),
        components_of(joined_path(dir, name)) == components_of(dir).push(name),
{
    reveal_strlit("/");
    assert("/"@ =~= seq!['/']);
    let whole = joined_path(dir, name);
    assert(name[0] != '/') by {
        if name[0] == '/' {
            assert(name.contains('/'));
        }
    }
    assert(whole == dir + seq!['/'] + name);
    text::lemma_pieces_concat(dir, name, '/');
    text::lemma_pieces_plain(name, '/');
    let p = pieces(dir, '/');
    let q = pieces(whole, '/');
    assert(q =~= p.push(name));
    text::lemma_join_pieces(dir, '/');
    text::lemma_pieces_nonempty(dir, '/');
    lemma_marks_extend(p, name, p.len());
    assert(counts(q, p.len() as int));
    assert(marks(q) == marks(p).push(p.len() as int));
    lemma_marks(p, p.len());
    let c = components_of(whole);
    let d = components_of(dir);
    assert forall|i: int| 0 <= i < d.len() implies c[i] == d[i] by {
        assert(marks(q)[i] == marks(p)[i]);
        assert(q[marks(p)[i]] == p[marks(p)[i]]);
    }
    assert(c =~= d.push(name));
}

/// A name joined to a directory is one component more; it is the file's name, and what is
/// below the directory.
pub proof fn lemma_child(dir: Seq<char>, name: Seq<char>)
    requires
        dir.len() > 0,
        dir.last() != '/',
        name.len() > 0,
        name != "."@,
        !name.contains('/'),
    ensures
        components_of(joined_path(dir, name)) == components_of(dir).push(name),
        name != ".."@ ==> file_name_of(joined_path(dir, name)) == Some(name),
        components_of(dir).len() > 0 ==> below(joined_path(dir, name), dir) == name,
{
    lemma_child_components(dir, name);
    reveal_strlit("/");
    let whole = joined_path(dir, name);
    assert(components_of(whole).last() == name);
    assert(name != "/"@) by {
        if name == "/"@ {
            assert(name[0] == '/');
            assert(name.contains('/'));
        }
    }
    let q = pieces(whole, '/');
    let m = marks(q);
    let n = pieces(dir, '/').len() as int;
    let k = components_of(dir).len();
    assert(m.last() == n);
    assert(m.len() == k + 1);
    if k > 0 {
        assert(m[k as int] == n);
        assert(q.subrange(n, n + 1) =~= seq![name]);
        assert(joined(seq![name], "/"@) == name);
    }
}

proof fn lemma_last_dot(stem: Seq<char>, ext: Seq<char>)
    requires
        !ext.contains('.'),
    ensures
        last_dot(stem + seq!['.'] + ext) == Some(stem.len()),
    decreases ext.len(),
{
    let s = stem + seq!['.'] + ext;
    if ext.len() > 0 {
        assert(s.last() == ext.last());
        assert(ext.last() != '.') by {
            assert(ext[ext.len() - 1] == ext.last());
        }
        assert(!ext.drop_last().contains('.')) by {
            if ext.drop_last().contains('.') {
                let i = ext.drop_last().index_of('.');
                assert(ext[i] == '.');
            }
        }
        lemma_last_dot(stem, ext.drop_last());
        assert(s.drop_last() =~= stem + seq!['.'] + ext.drop_last());
    }
}

/// The extension of a file is what stands behind the last dot of its name, unless the name
/// begins with that dot; a name without a dot has none.
pub proof fn lemma_extension(dir: Seq<char>, stem: Seq<char>, ext: Seq<char>)
    requires
        dir.len() > 0,
        dir.last() != '/',
        !stem.contains('/'),
        !ext.contains('/'),
        !ext.contains('.'),
    ensures
        stem.len() > 0 && ext.len() > 0 ==> extension_of(
            joined_path(dir, stem + seq!['.'] + ext),
        ) == Some(ext),
        stem.len() == 0 && ext.len() > 0 ==> extension_of(
            joined_path(dir, stem + seq!['.'] + ext),
        ) is None,
        stem.len() > 0 && !stem.contains('.') ==> extension_of(joined_path(dir, stem)) is None,
{
    reveal_strlit(".");
    reveal_strlit("..");
    let name = stem + seq!['.'] + ext;
    if ext.len() > 0 {
        assert(!name.contains('/')) by {
            if name.contains('/') {
                let i = name.index_of('/');
                if i < stem.len() {
                    assert(stem[i] == '/');
                } else if i > stem.len() {
                    assert(ext[i - stem.len() - 1] == '/');
                }
            }
        }
        assert(name.last() == ext[ext.len() - 1]);
        assert(ext.contains(ext[ext.len() - 1]));
        assert(name != "."@ && name != ".."@);
        lemma_child(dir, name);
        lemma_last_dot(stem, ext);
        assert(name.skip(stem.len() as int + 1) =~= ext);
    }
    if stem.len() > 0 && !stem.contains('.') {
        assert(stem != "."@ && stem != ".."@) by {
            if stem == "."@ || stem == ".."@ {
                assert(stem[0] == '.');
                assert(stem.contains('.'));
            }
        }
        lemma_child(dir, stem);
        lemma_no_dot(stem);
    }
}

proof fn lemma_no_dot(name: Seq<char>)
    requires
        !name.contains('.'),
    ensures
        last_dot(name) is None,
    decreases name.len(),
{
    if name.len() > 0 {
        assert(name[name.len() - 1] == name.last());
        assert(name.last() != '.');
        assert(!name.drop_last().contains('.')) by {
            if name.drop_last().contains('.') {
                let i = name.drop_last().index_of('.');
                assert(name[i] == '.');
            }
        }
        lemma_no_dot(name.drop_last());
    }
}

/// A path is under itself, and what is under a directory is under whatever that is under.
pub proof fn lemma_under(a: Seq<char>, b: Seq<char>, c: Seq<char>)
    ensures
        under(a, a),
        under(a, b) && under(b, c) ==> under(a, c),
        under(a, b) && under(b, a) ==> components_of(a) == components_of(b),
{
    let x = components_of(a);
    let y = components_of(b);
    let z = components_of(c);
    assert(x.take(x.len() as int) =~= x);
    assert(y.take(y.len() as int) =~= y);
    if under(a, b) && under(b, c) {
        assert(x.take(z.len() as int) =~= x.take(y.len() as int).take(z.len() as int));
    }
}

/// A joined path ends with the name and begins with the base, with one separator between,
/// unless the name is a whole path.
pub proof fn lemma_joined_path(base: Seq<char>, name: Seq<char>)
    ensures
        name.len() > 0 && name[0] == '/' ==> joined_path(base, name) == name,
        name.len() == 0 || name[0] != '/' ==> {
            &&& text::begins(joined_path(base, name), base)
            &&& joined_path(base, name).skip(joined_path(base, name).len() - name.len()) == name
            &&& joined_path(base, name).len() - name.len() - base.len() == (if base.len() == 0
                || base.last() == '/' {
                0int
            } else {
                1int
            })
            &&& base.len() > 0 && base.last() != '/' ==> joined_path(base, name)[base.len() as int]
                == '/'
        },
{
    reveal_strlit("/");
    let j = joined_path(base, name);
    if name.len() == 0 || name[0] != '/' {
        assert(j.subrange(0, base.len() as int) =~= base);
        assert(j.skip(j.len() - name.len()) =~= name);
    }
}

/// On Windows every backslash of a path becomes a slash and nothing else changes, but for
/// paths in the literal form; elsewhere a path stays as it is.
pub proof fn lemma_portable(path: Seq<char>)
    ensures
        portable_of(path, false) == path,
        text::begins(path, "\\\\?\\"@) ==> portable_of(path, true) == path,
        !text::begins(path, "\\\\?\\"@) ==> {
            &&& portable_of(path, true).len() == path.len()
            &&& forall|i: int|
                0 <= i < path.len() ==> #[trigger] portable_of(path, true)[i] == (if path[i]
                    == '\\' {
                    '/'
                } else {
                    path[i]
                })
        },
{
    reveal_strlit("\\");
    reveal_strlit("/");
    assert("\\"@ =~= seq!['\\']);
    assert("/"@ =~= seq!['/']);
    text::lemma_replaced_each(path, '\\', '/');
}

/// A path is the sum of its segments: one more adds itself, unless it is empty or a dot, which
/// count for nothing.
pub proof fn lemma_segment_added(dir: Seq<char>, x: Seq<char>)
    requires
        dir.len() > 0,
        !x.contains('/'),
    ensures
        x.len() == 0 || x == "."@ ==> components_of(dir + seq!['/'] + x) == components_of(dir),
        x.len() > 0 && x != "."@ && dir != "/"@ ==> components_of(dir + seq!['/'] + x)
            == components_of(dir).push(x),
{
    text::lemma_pieces_concat(dir, x, '/');
    text::lemma_pieces_plain(x, '/');
    text::lemma_join_pieces(dir, '/');
    text::lemma_pieces_nonempty(dir, '/');
    let whole = dir + seq!['/'] + x;
    let p = pieces(dir, '/');
    let q = pieces(whole, '/');
    assert(q =~= p.push(x));
    lemma_marks_extend(p, x, p.len());
    lemma_marks(p, p.len());
    let c = components_of(whole);
    let d = components_of(dir);
    if counts(q, p.len() as int) {
        assert(marks(q) == marks(p).push(p.len() as int));
        assert forall|i: int| 0 <= i < d.len() implies c[i] == d[i] by {
            assert(marks(q)[i] == marks(p)[i]);
            assert(q[marks(p)[i]] == p[marks(p)[i]]);
        }
        assert(c =~= d.push(x));
    } else {
        assert(marks(q) == marks(p));
        assert forall|i: int| 0 <= i < d.len() implies c[i] == d[i] by {
            assert(q[marks(p)[i]] == p[marks(p)[i]]);
        }
        assert(c =~= d);
    }
}

/// A path begins with its first segment, whatever that is, and an absolute one with the root.
pub proof fn lemma_first_segment(x: Seq<char>)
    requires
        !x.contains('/'),
    ensures
        x.len() > 0 ==> components_of(x) == seq![x],
        x.len() == 0 ==> components_of(x).len() == 0,
        x.len() > 0 && x != "."@ ==> components_of(seq!['/'] + x) == seq!["/"@, x],
        x.len() == 0 || x == "."@ ==> components_of(seq!['/'] + x) == seq!["/"@],
{
    let none = Seq::<char>::empty();
    text::lemma_pieces_plain(x, '/');
    text::lemma_pieces_plain(none, '/');
    text::lemma_pieces_concat(none, x, '/');
    assert(none + seq!['/'] + x =~= seq!['/'] + x);
    let p = pieces(x, '/');
    let q = pieces(seq!['/'] + x, '/');
    assert(q =~= seq![none, x]);
    reveal_with_fuel(marks_upto, 3);
    if x.len() > 0 {
        assert(marks(p) =~= seq![0int]);
        assert(components_of(x) =~= seq![x]);
    } else {
        assert(marks(p) =~= Seq::empty());
    }
    if x.len() > 0 && x != "."@ {
        assert(marks(q) =~= seq![0int, 1int]);
        assert(components_of(seq!['/'] + x) =~= seq!["/"@, x]);
    } else {
        assert(marks(q) =~= seq![0int]);
        assert(components_of(seq!['/'] + x) =~= seq!["/"@]);
    }
}

/// Of two names in one directory neither is under the other, however alike they begin.
pub proof fn lemma_siblings_apart(dir: Seq<char>, a: Seq<char>, b: Seq<char>)
    requires
        dir.len() > 0,
        dir.last() != '/',
        a.len() > 0,
        a != "."@,
        !a.contains('/'),
        b.len() > 0,
        b != "."@,
        !b.contains('/'),
    ensures
        under(joined_path(dir, a), joined_path(dir, b)) <==> a == b,
{
    lemma_child_components(dir, a);
    lemma_child_components(dir, b);
    let x = components_of(joined_path(dir, a));
    let y = components_of(joined_path(dir, b));
    assert(x.take(x.len() as int) =~= x);
    assert(x.last() == a && y.last() == b);
}

/// What is below a directory is the rest of the path, its own segments and separators as they
/// stand.
pub proof fn lemma_below_nested(dir: Seq<char>, a: Seq<char>, b: Seq<char>)
    requires
        dir.len() > 0,
        dir.last() != '/',
        components_of(dir).len() > 0,
        a.len() > 0,
        a != "."@,
        !a.contains('/'),
        b.len() > 0,
        b != "."@,
        !b.contains('/'),
    ensures
        under(joined_path(joined_path(dir, a), b), dir),
        below(joined_path(joined_path(dir, a), b), dir) == a + "/"@ + b,
{
    let mid = joined_path(dir, a);
    lemma_child_components(dir, a);
    assert(mid.last() != '/') by {
        assert(mid.last() == a[a.len() - 1]);
        assert(a.contains(a[a.len() - 1]));
    }
    lemma_child_components(mid, b);
    lemma_child_under(dir, a);
    lemma_child_under(mid, b);
    let whole = joined_path(mid, b);
    lemma_under(whole, mid, dir);
    let p = pieces(dir, '/');
    let q = pieces(whole, '/');
    let m = marks(q);
    let k = components_of(dir).len() as int;
    let n = p.len() as int;
    assert(q =~= p.push(a).push(b));
    assert(m[k] == n);
    assert(m.last() == n + 1);
    assert(q.subrange(n, n + 2) =~= seq![a, b]);
    reveal_with_fuel(joined, 2);
    assert(seq![a, b].drop_last() =~= seq![a]);
    assert(joined(seq![a, b], "/"@) =~= a + "/"@ + b);
}

/// A slash at the end of a path, or a dot behind it, changes nothing of what it means: neither
/// what it is under, nor what is below that, nor its name.
pub proof fn lemma_trailing(path: Seq<char>, base: Seq<char>, x: Seq<char>)
    requires
        path.len() > 0,
        x.len() == 0 || x == "."@,
    ensures
        under(path + seq!['/'] + x, base) == under(path, base),
        below(path + seq!['/'] + x, base) == below(path, base),
        file_name_of(path + seq!['/'] + x) == file_name_of(path),
{
    reveal_strlit(".");
    assert(!x.contains('/')) by {
        if x.contains('/') {
            let i = x.index_of('/');
            assert(x[i] == '/');
        }
    }
    lemma_segment_added(path, x);
    text::lemma_pieces_concat(path, x, '/');
    text::lemma_pieces_plain(x, '/');
    text::lemma_join_pieces(path, '/');
    text::lemma_pieces_nonempty(path, '/');
    let p = pieces(path, '/');
    let q = pieces(path + seq!['/'] + x, '/');
    assert(q =~= p.push(x));
    lemma_marks_extend(p, x, p.len());
    lemma_marks(p, p.len());
    let m = marks(p);
    assert(marks(q) == m);
    let k = components_of(base).len();
    if k < m.len() {
        assert(m[m.len() - 1] == m.last());
        assert(m[k as int] <= m.last());
        assert(q.subrange(m[k as int], m.last() + 1) =~= p.subrange(m[k as int], m.last() + 1));
        assert(q[m[0]] == p[m[0]]);
    }
}

} // verus!
