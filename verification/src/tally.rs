//! Sums kept under names, and ranking by a number.

use vstd::prelude::*;

use crate::text;
use crate::text::before;

verus! {

/// A table with `amount` more under `name`. The rows stand in the order of their names.
pub open spec fn bumped(
    table: Seq<(Seq<char>, nat)>,
    name: Seq<char>,
    amount: nat,
) -> Seq<(Seq<char>, nat)>
    decreases table.len(),
{
    if table.len() == 0 {
        seq![(name, amount)]
    } else if table[0].0 == name {
        seq![(name, table[0].1 + amount)] + table.skip(1)
    } else if before(name, table[0].0) {
        seq![(name, amount)] + table
    } else {
        seq![table[0]] + bumped(table.skip(1), name, amount)
    }
}

/// What a table holds.
pub open spec fn rows(table: Seq<(String, usize)>) -> Seq<(Seq<char>, nat)> {
    table.map_values(|row: (String, usize)| (row.0@, row.1 as nat))
}

/// The amount under `name`.
pub open spec fn amount(table: Seq<(Seq<char>, nat)>, name: Seq<char>) -> nat
    decreases table.len(),
{
    if table.len() == 0 {
        0
    } else if table[0].0 == name {
        table[0].1
    } else {
        amount(table.skip(1), name)
    }
}

/// All amounts together.
pub open spec fn total(table: Seq<(Seq<char>, nat)>) -> nat
    decreases table.len(),
{
    if table.len() == 0 {
        0
    } else {
        table[0].1 + total(table.skip(1))
    }
}

/// Adds `n` under `name`.
pub fn bump(table: &mut Vec<(String, usize)>, name: &str, n: usize)
    requires
        amount(rows(old(table)@), name@) + n <= usize::MAX,
    ensures
        rows(final(table)@) == bumped(rows(old(table)@), name@, n as nat),
{
    let ghost all = rows(table@);
    let ghost first = table@;
    let mut i: usize = 0;
    proof {
        assert(all.skip(0) =~= all);
        assert(all.take(0) + bumped(all, name@, n as nat) =~= bumped(all, name@, n as nat));
    }
    while i < table.len()
        invariant
            i <= table@.len(),
            table@ == first,
            all == rows(first),
            all == rows(old(table)@),
            amount(all.skip(i as int), name@) == amount(all, name@),
            amount(all, name@) + n <= usize::MAX,
            bumped(all, name@, n as nat) == all.take(i as int) + bumped(
                all.skip(i as int),
                name@,
                n as nat,
            ),
        decreases table@.len() - i,
    {
        let ghost rest = all.skip(i as int);
        proof {
            assert(rest[0] == all[i as int]);
            assert(all[i as int] == (table@[i as int].0@, table@[i as int].1 as nat));
            assert(rest.skip(1) =~= all.skip(i + 1));
        }
        if text::same(table[i].0.as_str(), name) {
            let sum: usize = table[i].1 + n;
            let row = (text::copy(name), sum);
            table.set(i, row);
            assert(rows(table@) =~= all.take(i as int) + (seq![(name@, sum as nat)] + rest.skip(1)));
            return;
        }
        if text::is_before(name, table[i].0.as_str()) {
            let row = (text::copy(name), n);
            table.insert(i, row);
            assert(rows(table@) =~= all.take(i as int) + (seq![(name@, n as nat)] + rest));
            return;
        }
        proof {
            assert(all.take(i + 1) + bumped(rest.skip(1), name@, n as nat) =~= all.take(i as int)
                + (seq![rest[0]] + bumped(rest.skip(1), name@, n as nat)));
        }
        i = i + 1;
    }
    let row = (text::copy(name), n);
    table.push(row);
    proof {
        assert(all.skip(i as int) =~= Seq::empty());
        assert(rows(table@) =~= all.take(i as int) + seq![(name@, n as nat)]);
    }
}

/// Adding under a name adds to the total.
pub proof fn lemma_bumped_total(table: Seq<(Seq<char>, nat)>, name: Seq<char>, n: nat)
    ensures
        total(bumped(table, name, n)) == total(table) + n,
    decreases table.len(),
{
    let b = bumped(table, name, n);
    assert(total(b) == b[0].1 + total(b.skip(1)));
    if table.len() == 0 {
        assert(b.skip(1) =~= Seq::empty());
        assert(total(b.skip(1)) == 0);
    } else if table[0].0 == name {
        assert(b.skip(1) =~= table.skip(1));
    } else if before(name, table[0].0) {
        assert(b.skip(1) =~= table);
    } else {
        lemma_bumped_total(table.skip(1), name, n);
        assert(b.skip(1) =~= bumped(table.skip(1), name, n));
    }
}

/// What one name has is part of the whole.
pub proof fn lemma_amount_within(table: Seq<(Seq<char>, nat)>, name: Seq<char>)
    ensures
        amount(table, name) <= total(table),
    decreases table.len(),
{
    if table.len() > 0 {
        lemma_amount_within(table.skip(1), name);
    }
}

/// Are the rows in the order of their names, each name once?
pub open spec fn ordered(table: Seq<(Seq<char>, nat)>) -> bool {
    forall|i: int, j: int|
        0 <= i < j < table.len() ==> before((#[trigger] table[i]).0, (#[trigger] table[j]).0)
}

proof fn lemma_code_point(a: char, b: char)
    ensures
        a as u32 == b as u32 ==> a == b,
{
}

/// Of two texts that differ, one comes before the other.
pub proof fn lemma_before_total(a: Seq<char>, b: Seq<char>)
    ensures
        before(a, b) || before(b, a) || a == b,
        !before(a, a),
        !(before(a, b) && before(b, a)),
    decreases a.len(),
{
    if a.len() > 0 && b.len() > 0 {
        lemma_before_total(a.drop_first(), b.drop_first());
        lemma_before_total(a.drop_first(), a.drop_first());
        if a[0] == b[0] && a.drop_first() == b.drop_first() {
            assert(a =~= seq![a[0]] + a.drop_first());
            assert(b =~= seq![b[0]] + b.drop_first());
        }
        lemma_code_point(a[0], b[0]);
    } else if a.len() > 0 {
        lemma_before_total(a.drop_first(), a.drop_first());
    } else if b.len() == 0 {
        assert(a =~= b);
    }
}

/// The order of texts is transitive.
pub proof fn lemma_before_transitive(a: Seq<char>, b: Seq<char>, c: Seq<char>)
    requires
        before(a, b),
        before(b, c),
    ensures
        before(a, c),
    decreases a.len(),
{
    if a.len() > 0 && b.len() > 0 && c.len() > 0 {
        if a[0] == b[0] && b[0] == c[0] {
            lemma_before_transitive(a.drop_first(), b.drop_first(), c.drop_first());
        }
    }
}

/// Adding keeps the rows in order, and changes no other name's amount.
pub proof fn lemma_bumped(table: Seq<(Seq<char>, nat)>, name: Seq<char>, n: nat)
    requires
        ordered(table),
    ensures
        ordered(bumped(table, name, n)),
        amount(bumped(table, name, n), name) == amount(table, name) + n,
        forall|other: Seq<char>|
            other != name ==> #[trigger] amount(bumped(table, name, n), other) == amount(
                table,
                other,
            ),
    decreases table.len(),
{
    let b = bumped(table, name, n);
    assert forall|other: Seq<char>| other != name implies #[trigger] amount(b, other) == (
    if b[0].0 == other {
        b[0].1
    } else {
        amount(b.skip(1), other)
    }) by {}
    if table.len() == 0 {
        assert(b.skip(1) =~= Seq::empty());
        assert forall|other: Seq<char>| other != name implies #[trigger] amount(b, other)
            == amount(table, other) by {
            assert(amount(b.skip(1), other) == 0);
        }
    } else if table[0].0 == name {
        assert(b.skip(1) =~= table.skip(1));
        assert forall|i: int, j: int| 0 <= i < j < b.len() implies before(
            (#[trigger] b[i]).0,
            (#[trigger] b[j]).0,
        ) by {
            assert(b[i].0 == table[i].0);
            assert(b[j].0 == table[j].0);
        }
    } else if before(name, table[0].0) {
        assert(b.skip(1) =~= table);
        assert(amount(table, name) == 0) by {
            lemma_absent(table, name);
        }
        assert forall|i: int, j: int| 0 <= i < j < b.len() implies before(
            (#[trigger] b[i]).0,
            (#[trigger] b[j]).0,
        ) by {
            assert(b[j] == table[j - 1]);
            if i > 0 {
                assert(b[i] == table[i - 1]);
            } else if j > 1 {
                assert(before(table[0].0, table[j - 1].0));
                lemma_before_transitive(name, table[0].0, table[j - 1].0);
            }
        }
    } else {
        let rest = table.skip(1);
        assert forall|i: int, j: int| 0 <= i < j < rest.len() implies before(
            (#[trigger] rest[i]).0,
            (#[trigger] rest[j]).0,
        ) by {
            assert(rest[i] == table[i + 1]);
            assert(rest[j] == table[j + 1]);
        }
        lemma_bumped(rest, name, n);
        let br = bumped(rest, name, n);
        assert(b.skip(1) =~= br);
        lemma_before_total(table[0].0, name);
        lemma_bumped_names(rest, name, n);
        assert forall|i: int, j: int| 0 <= i < j < b.len() implies before(
            (#[trigger] b[i]).0,
            (#[trigger] b[j]).0,
        ) by {
            assert(b[j] == br[j - 1]);
            if i > 0 {
                assert(b[i] == br[i - 1]);
            } else if br[j - 1].0 != name {
                let k = choose|k: int|
                    0 <= k < rest.len() && (#[trigger] rest[k]).0 == br[j - 1].0;
                assert(rest[k] == table[k + 1]);
                assert(before(table[0].0, table[k + 1].0));
            }
        }
        assert forall|other: Seq<char>| other != name implies #[trigger] amount(b, other)
            == amount(table, other) by {
            assert(amount(br, other) == amount(rest, other));
        }
    }
}

proof fn lemma_bumped_names(table: Seq<(Seq<char>, nat)>, name: Seq<char>, n: nat)
    ensures
        forall|i: int|
            0 <= i < bumped(table, name, n).len() && (#[trigger] bumped(table, name, n)[i]).0
                != name ==> exists|k: int|
                0 <= k < table.len() && (#[trigger] table[k]).0 == bumped(table, name, n)[i].0,
    decreases table.len(),
{
    let b = bumped(table, name, n);
    if table.len() > 0 {
        let rest = table.skip(1);
        lemma_bumped_names(rest, name, n);
        assert forall|i: int|
            0 <= i < b.len() && (#[trigger] b[i]).0 != name implies exists|k: int|
            0 <= k < table.len() && (#[trigger] table[k]).0 == b[i].0 by {
            if table[0].0 == name {
                assert(table[i].0 == b[i].0);
            } else if before(name, table[0].0) {
                assert(table[i - 1].0 == b[i].0);
            } else if i == 0 {
                assert(table[0].0 == b[0].0);
            } else {
                let br = bumped(rest, name, n);
                assert(br[i - 1] == b[i]);
                let k = choose|k: int| 0 <= k < rest.len() && (#[trigger] rest[k]).0 == br[i - 1].0;
                assert(table[k + 1].0 == b[i].0);
            }
        }
    }
}

proof fn lemma_absent(table: Seq<(Seq<char>, nat)>, name: Seq<char>)
    requires
        ordered(table),
        table.len() == 0 || before(name, table[0].0),
    ensures
        amount(table, name) == 0,
    decreases table.len(),
{
    if table.len() > 0 {
        lemma_before_total(name, table[0].0);
        let rest = table.skip(1);
        assert forall|i: int, j: int| 0 <= i < j < rest.len() implies before(
            (#[trigger] rest[i]).0,
            (#[trigger] rest[j]).0,
        ) by {
            assert(rest[i] == table[i + 1]);
            assert(rest[j] == table[j + 1]);
        }
        if rest.len() > 0 {
            assert(before(table[0].0, table[1].0));
            lemma_before_transitive(name, table[0].0, rest[0].0);
        }
        lemma_absent(rest, name);
    }
}

/// `idx` with `x` put behind every index whose key is not smaller.
pub open spec fn placed(keys: Seq<u64>, idx: Seq<int>, x: int) -> Seq<int>
    decreases idx.len(),
{
    if idx.len() == 0 || keys[idx.last()] >= keys[x] {
        idx.push(x)
    } else {
        placed(keys, idx.drop_last(), x).push(idx.last())
    }
}

/// The first `n` indices, the largest key first, equal keys in the order in which they
/// stand.
pub open spec fn ranked(keys: Seq<u64>, n: nat) -> Seq<int>
    decreases n,
{
    if n == 0 {
        Seq::empty()
    } else {
        placed(keys, ranked(keys, (n - 1) as nat), n - 1)
    }
}

/// The indices as numbers that ghost code works with.
pub open spec fn indices(v: Seq<usize>) -> Seq<int> {
    v.map_values(|i: usize| i as int)
}

/// The indices of `keys`, the largest key first, equal keys in the order in which they
/// stand.
pub fn rank(keys: &Vec<u64>) -> (r: Vec<usize>)
    ensures
        indices(r@) == ranked(keys@, keys@.len()),
        r@.len() == keys@.len(),
        forall|i: int| 0 <= i < r@.len() ==> #[trigger] r@[i] < keys@.len(),
{
    let mut out: Vec<usize> = Vec::new();
    let mut x: usize = 0;
    while x < keys.len()
        invariant
            x <= keys@.len(),
            out@.len() == x,
            indices(out@) == ranked(keys@, x as nat),
            forall|i: int| 0 <= i < out@.len() ==> #[trigger] out@[i] < x,
        decreases keys@.len() - x,
    {
        let ghost all = indices(out@);
        let ghost had = out@;
        let mut p: usize = out.len();
        assert(all.take(p as int) =~= all);
        assert(all.skip(p as int) =~= Seq::empty());
        assert(placed(keys@, all.take(p as int), x as int) + all.skip(p as int) =~= placed(
            keys@,
            all,
            x as int,
        ));
        while p > 0 && keys[out[p - 1]] < keys[x]
            invariant
                p <= out@.len(),
                out@ == had,
                all == indices(had),
                x < keys@.len(),
                forall|i: int| 0 <= i < out@.len() ==> #[trigger] out@[i] < x,
                placed(keys@, all.take(p as int), x as int) + all.skip(p as int) == placed(
                    keys@,
                    all,
                    x as int,
                ),
            decreases p,
        {
            proof {
                let t = all.take(p as int);
                assert(t.last() == all[p - 1]);
                assert(all[p - 1] == had[p - 1] as int);
                assert(t.drop_last() =~= all.take(p - 1));
                assert(placed(keys@, all.take(p - 1), x as int) + all.skip(p - 1) =~= placed(
                    keys@,
                    all.take(p - 1),
                    x as int,
                ).push(all[p - 1]) + all.skip(p as int));
            }
            p = p - 1;
        }
        proof {
            let t = all.take(p as int);
            if p > 0 {
                assert(t.last() == all[p - 1]);
                assert(all[p - 1] == had[p - 1] as int);
            }
            assert(placed(keys@, t, x as int) == t.push(x as int));
        }
        out.insert(p, x);
        assert(indices(out@) =~= all.take(p as int).push(x as int) + all.skip(p as int));
        x = x + 1;
    }
    out
}

proof fn lemma_placed(keys: Seq<u64>, idx: Seq<int>, x: int)
    requires
        forall|i: int| 0 <= i < idx.len() ==> 0 <= #[trigger] idx[i] < x,
        forall|i: int, j: int|
            0 <= i < j < idx.len() ==> keys[#[trigger] idx[i]] > keys[#[trigger] idx[j]] || (
            keys[idx[i]] == keys[idx[j]] && idx[i] < idx[j]),
        0 <= x,
    ensures
        placed(keys, idx, x).len() == idx.len() + 1,
        placed(keys, idx, x).contains(x),
        forall|v: int| idx.contains(v) ==> #[trigger] placed(keys, idx, x).contains(v),
        forall|i: int|
            0 <= i < placed(keys, idx, x).len() ==> 0 <= #[trigger] placed(keys, idx, x)[i] <= x,
        forall|i: int|
            0 <= i < placed(keys, idx, x).len() ==> #[trigger] placed(keys, idx, x)[i] == x
                || idx.contains(placed(keys, idx, x)[i]),
        forall|i: int, j: int|
            0 <= i < j < placed(keys, idx, x).len() ==> keys[#[trigger] placed(keys, idx, x)[i]]
                > keys[#[trigger] placed(keys, idx, x)[j]] || (keys[placed(keys, idx, x)[i]]
                == keys[placed(keys, idx, x)[j]] && placed(keys, idx, x)[i] < placed(
                keys,
                idx,
                x,
            )[j]),
    decreases idx.len(),
{
    let p = placed(keys, idx, x);
    if idx.len() == 0 || keys[idx.last()] >= keys[x] {
        assert(p[idx.len() as int] == x);
        assert forall|v: int| idx.contains(v) implies #[trigger] p.contains(v) by {
            let i = idx.index_of(v);
            assert(p[i] == v);
        }
        assert forall|i: int, j: int| 0 <= i < j < p.len() implies keys[#[trigger] p[i]]
            > keys[#[trigger] p[j]] || (keys[p[i]] == keys[p[j]] && p[i] < p[j]) by {
            assert(p[i] == idx[i]);
            if j < idx.len() {
                assert(p[j] == idx[j]);
            } else if i < idx.len() - 1 {
                assert(keys[idx[i]] >= keys[idx[idx.len() - 1]]);
            }
        }
        assert forall|i: int| 0 <= i < p.len() implies #[trigger] p[i] == x || idx.contains(
            p[i],
        ) by {
            if i < idx.len() {
                assert(idx[i] == p[i]);
            }
        }
    } else {
        let front = idx.drop_last();
        assert forall|i: int| 0 <= i < front.len() implies 0 <= #[trigger] front[i] < x by {
            assert(front[i] == idx[i]);
        }
        assert forall|i: int, j: int| 0 <= i < j < front.len() implies keys[#[trigger] front[i]]
            > keys[#[trigger] front[j]] || (keys[front[i]] == keys[front[j]] && front[i]
            < front[j]) by {
            assert(front[i] == idx[i] && front[j] == idx[j]);
        }
        lemma_placed(keys, front, x);
        let q = placed(keys, front, x);
        let last = idx.last();
        assert(p == q.push(last));
        assert(p[idx.len() as int] == last);
        assert(p.contains(x)) by {
            let i = q.index_of(x);
            assert(p[i] == x);
        }
        assert forall|v: int| idx.contains(v) implies #[trigger] p.contains(v) by {
            let i = idx.index_of(v);
            if i < front.len() {
                assert(front[i] == v);
                assert(front.contains(v));
                assert(q.contains(v));
                let k = q.index_of(v);
                assert(p[k] == v);
            } else {
                assert(p[q.len() as int] == v);
            }
        }
        assert(idx[idx.len() - 1] == last);
        assert forall|i: int| 0 <= i < p.len() implies 0 <= #[trigger] p[i] <= x && (p[i] == x
            || idx.contains(p[i])) by {
            if i < q.len() {
                assert(p[i] == q[i]);
                if q[i] != x {
                    assert(front.contains(q[i]));
                    let k = front.index_of(q[i]);
                    assert(idx[k] == q[i]);
                }
            } else {
                assert(p[i] == last);
            }
        }
        assert forall|i: int, j: int| 0 <= i < j < p.len() implies keys[#[trigger] p[i]]
            > keys[#[trigger] p[j]] || (keys[p[i]] == keys[p[j]] && p[i] < p[j]) by {
            assert(p[i] == q[i]);
            if j < q.len() {
                assert(p[j] == q[j]);
            } else if q[i] != x {
                assert(front.contains(q[i]));
                let k = front.index_of(q[i]);
                assert(idx[k] == q[i]);
                assert(idx[idx.len() - 1] == last);
            }
        }
    }
}

/// A ranking names every index once, larger keys before smaller ones, and leaves equal keys
/// in the order in which they stand.
pub proof fn lemma_ranked(keys: Seq<u64>, n: nat)
    ensures
        ranked(keys, n).len() == n,
        forall|i: int| 0 <= i < n ==> 0 <= #[trigger] ranked(keys, n)[i] < n,
        forall|v: int| 0 <= v < n ==> #[trigger] ranked(keys, n).contains(v),
        forall|i: int, j: int|
            0 <= i < j < n ==> keys[#[trigger] ranked(keys, n)[i]] > keys[#[trigger] ranked(
                keys,
                n,
            )[j]] || (keys[ranked(keys, n)[i]] == keys[ranked(keys, n)[j]] && ranked(keys, n)[i]
                < ranked(keys, n)[j]),
    decreases n,
{
    if n > 0 {
        lemma_ranked(keys, (n - 1) as nat);
        lemma_placed(keys, ranked(keys, (n - 1) as nat), n - 1);
        assert forall|v: int| 0 <= v < n implies #[trigger] ranked(keys, n).contains(v) by {
            if v < n - 1 {
                assert(ranked(keys, (n - 1) as nat).contains(v));
            }
        }
    }
}

/// Two additions can be made in either order.
pub proof fn lemma_bumped_commutes(
    table: Seq<(Seq<char>, nat)>,
    a: Seq<char>,
    m: nat,
    b: Seq<char>,
    n: nat,
)
    ensures
        bumped(bumped(table, a, m), b, n) == bumped(bumped(table, b, n), a, m),
    decreases table.len(),
{
    lemma_before_total(a, b);
    let ta = bumped(table, a, m);
    let tb = bumped(table, b, n);
    if table.len() == 0 {
        assert(ta.skip(1) =~= table);
        assert(tb.skip(1) =~= table);
        assert(bumped(ta, b, n) =~= bumped(tb, a, m));
    } else {
        let first = table[0].0;
        let rest = table.skip(1);
        lemma_before_total(a, first);
        lemma_before_total(b, first);
        if before(a, first) && before(first, b) {
            lemma_before_transitive(a, first, b);
        }
        if before(b, first) && before(first, a) {
            lemma_before_transitive(b, first, a);
        }
        lemma_bumped_commutes(rest, a, m, b, n);
        if first == a {
            assert(ta.skip(1) =~= rest);
        } else if before(a, first) {
            assert(ta.skip(1) =~= table);
        } else {
            assert(ta.skip(1) =~= bumped(rest, a, m));
        }
        if first == b {
            assert(tb.skip(1) =~= rest);
        } else if before(b, first) {
            assert(tb.skip(1) =~= table);
        } else {
            assert(tb.skip(1) =~= bumped(rest, b, n));
        }
        let ab = bumped(ta, b, n);
        let ba = bumped(tb, a, m);
        if a == b {
            assert(ab =~= ba);
        } else if first == a || before(a, first) {
            if first == b {
                assert(ab =~= ba);
            } else if before(b, first) {
                assert(ab =~= ba);
            } else {
                assert(before(a, b));
                assert(ab =~= ba);
            }
        } else if first == b || before(b, first) {
            assert(before(b, a));
            assert(ab =~= ba);
        } else {
            assert(ab =~= ba);
        }
    }
}

/// Does the table have a row of that name?
pub open spec fn named(table: Seq<(Seq<char>, nat)>, name: Seq<char>) -> bool {
    exists|i: int| 0 <= i < table.len() && (#[trigger] table[i]).0 == name
}

/// Adding under a name makes a row for it, and for no other.
pub proof fn lemma_bumped_named(
    table: Seq<(Seq<char>, nat)>,
    name: Seq<char>,
    n: nat,
    other: Seq<char>,
)
    ensures
        named(bumped(table, name, n), other) <==> other == name || named(table, other),
    decreases table.len(),
{
    let b = bumped(table, name, n);
    if table.len() == 0 {
        assert(b[0].0 == name);
    } else if table[0].0 == name {
        assert forall|i: int| 0 <= i < table.len() implies (#[trigger] b[i]).0 == (
        #[trigger] table[i]).0 by {}
        assert(b[0].0 == name);
        if named(table, other) {
            let i = choose|i: int| 0 <= i < table.len() && (#[trigger] table[i]).0 == other;
            assert(b[i].0 == other);
        }
    } else if before(name, table[0].0) {
        assert(b[0].0 == name);
        if named(table, other) {
            let i = choose|i: int| 0 <= i < table.len() && (#[trigger] table[i]).0 == other;
            assert(b[i + 1] == table[i]);
        }
        if named(b, other) && other != name {
            let i = choose|i: int| 0 <= i < b.len() && (#[trigger] b[i]).0 == other;
            assert(table[i - 1] == b[i]);
        }
    } else {
        let rest = table.skip(1);
        let br = bumped(rest, name, n);
        lemma_bumped_named(rest, name, n, other);
        assert(b[0] == table[0]);
        if named(b, other) {
            let i = choose|i: int| 0 <= i < b.len() && (#[trigger] b[i]).0 == other;
            if i > 0 {
                assert(br[i - 1] == b[i]);
                if other != name {
                    let k = choose|k: int| 0 <= k < rest.len() && (#[trigger] rest[k]).0 == other;
                    assert(table[k + 1] == rest[k]);
                }
            }
        }
        if other == name || named(table, other) {
            if other == table[0].0 {
                assert(b[0].0 == other);
            } else {
                if other != name {
                    let k = choose|k: int| 0 <= k < table.len() && (#[trigger] table[k]).0 == other;
                    assert(rest[k - 1] == table[k]);
                }
                let i = choose|i: int| 0 <= i < br.len() && (#[trigger] br[i]).0 == other;
                assert(b[i + 1] == br[i]);
            }
        }
    }
}

/// In an ordered table the amount under a row's name is that row's.
pub proof fn lemma_amount_of_row(table: Seq<(Seq<char>, nat)>, i: int)
    requires
        ordered(table),
        0 <= i < table.len(),
    ensures
        amount(table, table[i].0) == table[i].1,
    decreases i,
{
    if i > 0 {
        lemma_before_total(table[0].0, table[i].0);
        let rest = table.skip(1);
        assert forall|a: int, b: int| 0 <= a < b < rest.len() implies before(
            (#[trigger] rest[a]).0,
            (#[trigger] rest[b]).0,
        ) by {
            assert(rest[a] == table[a + 1] && rest[b] == table[b + 1]);
        }
        assert(rest[i - 1] == table[i]);
        lemma_amount_of_row(rest, i - 1);
    }
}

/// Nothing is counted under a name that no row has.
pub proof fn lemma_amount_unnamed(table: Seq<(Seq<char>, nat)>, name: Seq<char>)
    requires
        !named(table, name),
    ensures
        amount(table, name) == 0,
    decreases table.len(),
{
    if table.len() > 0 {
        assert(table[0].0 != name);
        let rest = table.skip(1);
        assert(!named(rest, name)) by {
            if named(rest, name) {
                let i = choose|i: int| 0 <= i < rest.len() && (#[trigger] rest[i]).0 == name;
                assert(table[i + 1].0 == name);
            }
        }
        lemma_amount_unnamed(rest, name);
    }
}

} // verus!
