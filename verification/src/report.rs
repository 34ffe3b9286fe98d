//! What the ledger adds up to, and how it is shown.

use vstd::prelude::*;

use crate::json;
use crate::json::{field, inner, number_or_zero, string};
use crate::ledger::{Entry, Record};
use crate::ledger;
use crate::number;
use crate::number::{decimal_of, grouped, left_aligned, signed_of, tokens};
use crate::snapshot;
use crate::tally;
use crate::text;
use crate::text::{byte_count, holds, texts};

verus! {

/// `a` without `b`, never less than nothing.
pub open spec fn minus(a: nat, b: nat) -> nat {
    if a > b {
        (a - b) as nat
    } else {
        0
    }
}

/// Bytes that a record saved.
pub open spec fn saved(r: Record) -> nat {
    match r {
        Record::Rewrite { saved, .. } => saved as nat,
        Record::Sandbox { saved, .. } => saved as nat,
        Record::Externalize { orig_bytes, new_bytes, .. } => minus(
            orig_bytes as nat,
            new_bytes as nat,
        ),
        _ => 0,
    }
}

/// Bytes that a record says were injected.
pub open spec fn spent(r: Record) -> nat {
    match r {
        Record::Inject { bytes, .. } => bytes as nat,
        _ => 0,
    }
}

/// Bytes of the file that a record says was compressed.
pub open spec fn original(r: Record) -> nat {
    match r {
        Record::Rewrite { orig_bytes, .. } => orig_bytes as nat,
        Record::Externalize { orig_bytes, .. } => orig_bytes as nat,
        _ => 0,
    }
}

/// The tool that a record is about.
pub open spec fn tool(r: Record) -> Option<Seq<char>> {
    match r {
        Record::Rewrite { tool, .. } => Some(tool),
        Record::Retrieval { tool, .. } => Some(tool),
        Record::Externalize { tool, .. } => Some(tool),
        Record::Sandbox { tool, .. } => Some(tool),
        Record::Inject { .. } => None,
    }
}

/// Bytes that an entry saved.
pub fn saved_of(e: &Entry) -> (n: usize)
    ensures
        n == saved(e.record()),
{
    match e {
        Entry::Rewrite(x) => x.saved,
        Entry::Sandbox(x) => x.saved,
        Entry::Externalize(x) => if x.orig_bytes > x.new_bytes {
            x.orig_bytes - x.new_bytes
        } else {
            0
        },
        _ => 0,
    }
}

/// Cost of one entry (injection bytes for `inject`, else 0).
pub fn cost_of(e: &Entry) -> (n: usize)
    ensures
        n == spent(e.record()),
{
    match e {
        Entry::Inject(x) => x.bytes,
        _ => 0,
    }
}

/// Original bytes of files that were compressed (skeleton / externalize): the
/// amount that would re-enter context if the model later read the full text.
pub fn orig_of(e: &Entry) -> (n: usize)
    ensures
        n == original(e.record()),
{
    match e {
        Entry::Rewrite(x) => x.orig_bytes,
        Entry::Externalize(x) => x.orig_bytes,
        _ => 0,
    }
}

/// The tool that an entry is about.
pub fn tool_of(e: &Entry) -> (r: Option<&str>)
    ensures
        json::shown(r) == tool(e.record()),
{
    match e {
        Entry::Rewrite(x) => Some(x.tool.as_str()),
        Entry::Retrieval(x) => Some(x.tool.as_str()),
        Entry::Externalize(x) => Some(x.tool.as_str()),
        Entry::Sandbox(x) => Some(x.tool.as_str()),
        Entry::Inject(_) => None,
    }
}

/// What records add up to.
pub struct Sums {
    pub saved: nat,
    pub spent: nat,
    pub original: nat,
    pub retrievals: nat,
    /// Bytes saved by tool, in the order of the tools' names.
    pub tools: Seq<(Seq<char>, nat)>,
}

/// What records add up to. Records without a tool count for none, or, where `unnamed` says so,
/// for that one.
pub open spec fn sums(rs: Seq<Record>, unnamed: Option<Seq<char>>) -> Sums
    decreases rs.len(),
{
    if rs.len() == 0 {
        Sums { saved: 0, spent: 0, original: 0, retrievals: 0, tools: Seq::empty() }
    } else {
        let before = sums(rs.drop_last(), unnamed);
        let r = rs.last();
        let name = if tool(r) is Some {
            tool(r)
        } else {
            unnamed
        };
        Sums {
            saved: before.saved + saved(r),
            spent: before.spent + spent(r),
            original: before.original + original(r),
            retrievals: before.retrievals + (if r is Retrieval {
                1nat
            } else {
                0nat
            }),
            tools: match name {
                Some(t) => tally::bumped(before.tools, t, saved(r)),
                None => before.tools,
            },
        }
    }
}

/// Do the sums fit a machine word? Percentages need a hundred times the bytes saved.
pub open spec fn fits(rs: Seq<Record>) -> bool {
    let s = sums(rs, None);
    s.saved * 100 <= usize::MAX && s.spent <= usize::MAX && s.original <= usize::MAX
}

/// What entries add up to.
pub struct Totals {
    pub saved: usize,
    pub spent: usize,
    pub original: u128,
    pub retrievals: usize,
    pub tools: Vec<(String, usize)>,
}

impl Totals {
    /// What the totals say.
    pub open spec fn says(self) -> Sums {
        Sums {
            saved: self.saved as nat,
            spent: self.spent as nat,
            original: self.original as nat,
            retrievals: self.retrievals as nat,
            tools: tally::rows(self.tools@),
        }
    }
}

proof fn lemma_sums_grow(rs: Seq<Record>, n: int, unnamed: Option<Seq<char>>)
    requires
        0 <= n <= rs.len(),
    ensures
        sums(rs.take(n), unnamed).saved <= sums(rs, unnamed).saved,
        sums(rs.take(n), unnamed).spent <= sums(rs, unnamed).spent,
        sums(rs.take(n), unnamed).original <= sums(rs, unnamed).original,
    decreases rs.len() - n,
{
    if n == rs.len() {
        assert(rs.take(n) =~= rs);
    } else {
        lemma_sums_grow(rs, n + 1, unnamed);
        assert(rs.take(n + 1).drop_last() =~= rs.take(n));
    }
}

/// What every tool saved is saved in all: the rows of the table add up to the total.
pub proof fn lemma_tools_add_up(rs: Seq<Record>, unnamed: Option<Seq<char>>)
    ensures
        tally::total(sums(rs, unnamed).tools) == sums(rs, unnamed).saved,
        tally::ordered(sums(rs, unnamed).tools),
    decreases rs.len(),
{
    if rs.len() > 0 {
        let before = sums(rs.drop_last(), unnamed);
        lemma_tools_add_up(rs.drop_last(), unnamed);
        let r = rs.last();
        let name = if tool(r) is Some {
            tool(r)
        } else {
            unnamed
        };
        if let Some(t) = name {
            tally::lemma_bumped_total(before.tools, t, saved(r));
            tally::lemma_bumped(before.tools, t, saved(r));
        }
    }
}

/// Bytes that the records about one tool saved.
pub open spec fn saved_by(rs: Seq<Record>, name: Seq<char>) -> nat
    decreases rs.len(),
{
    if rs.len() == 0 {
        0
    } else {
        saved_by(rs.drop_last(), name) + (if tool(rs.last()) == Some(name) {
            saved(rs.last())
        } else {
            0
        })
    }
}

/// The row of a tool holds what the records about it saved.
pub proof fn lemma_row_of_tool(rs: Seq<Record>, name: Seq<char>)
    ensures
        tally::amount(sums(rs, None).tools, name) == saved_by(rs, name),
    decreases rs.len(),
{
    if rs.len() > 0 {
        lemma_row_of_tool(rs.drop_last(), name);
        lemma_tools_add_up(rs.drop_last(), None);
        let before = sums(rs.drop_last(), None);
        if let Some(t) = tool(rs.last()) {
            tally::lemma_bumped(before.tools, t, saved(rs.last()));
        }
    }
}

/// The sums with one record more.
spec fn with_record(s: Sums, r: Record, unnamed: Option<Seq<char>>) -> Sums {
    let name = if tool(r) is Some {
        tool(r)
    } else {
        unnamed
    };
    Sums {
        saved: s.saved + saved(r),
        spent: s.spent + spent(r),
        original: s.original + original(r),
        retrievals: s.retrievals + (if r is Retrieval {
            1nat
        } else {
            0nat
        }),
        tools: match name {
            Some(t) => tally::bumped(s.tools, t, saved(r)),
            None => s.tools,
        },
    }
}

proof fn lemma_records_commute(s: Sums, a: Record, b: Record, unnamed: Option<Seq<char>>)
    ensures
        with_record(with_record(s, a, unnamed), b, unnamed) == with_record(
            with_record(s, b, unnamed),
            a,
            unnamed,
        ),
{
    let x = if tool(a) is Some {
        tool(a)
    } else {
        unnamed
    };
    let y = if tool(b) is Some {
        tool(b)
    } else {
        unnamed
    };
    if x is Some && y is Some {
        tally::lemma_bumped_commutes(s.tools, x->0, saved(a), y->0, saved(b));
    }
}

/// A record anywhere in the ledger counts as it would at the end.
proof fn lemma_moved_last(rs: Seq<Record>, i: int, unnamed: Option<Seq<char>>)
    requires
        0 <= i < rs.len(),
    ensures
        sums(rs, unnamed) == with_record(sums(rs.remove(i), unnamed), rs[i], unnamed),
    decreases rs.len(),
{
    let front = rs.drop_last();
    if i == rs.len() - 1 {
        assert(rs.remove(i) =~= front);
    } else {
        lemma_moved_last(front, i, unnamed);
        let rest = rs.remove(i);
        assert(rest.drop_last() =~= front.remove(i));
        assert(rest.last() == rs.last());
        lemma_records_commute(sums(front.remove(i), unnamed), rs[i], rs.last(), unnamed);
    }
}

/// What records add up to does not depend on their order.
pub proof fn lemma_sums_unordered(a: Seq<Record>, b: Seq<Record>, unnamed: Option<Seq<char>>)
    requires
        a.to_multiset() == b.to_multiset(),
    ensures
        sums(a, unnamed) == sums(b, unnamed),
    decreases a.len(),
{
    broadcast use vstd::seq_lib::group_to_multiset_ensures;

    assert(a.len() == a.to_multiset().len());
    assert(b.len() == b.to_multiset().len());
    if a.len() > 0 {
        let r = a.last();
        assert(a.to_multiset().count(r) > 0);
        assert(b.contains(r));
        let i = b.index_of(r);
        let front = a.drop_last();
        assert(a.remove(a.len() - 1) =~= front);
        assert(front.to_multiset() =~= b.remove(i).to_multiset());
        lemma_sums_unordered(front, b.remove(i), unnamed);
        lemma_moved_last(b, i, unnamed);
    } else {
        assert(a =~= b);
    }
}

/// A summary does not depend on the order of the ledger.
pub proof fn lemma_summary_unordered(a: Seq<Record>, b: Seq<Record>)
    requires
        a.to_multiset() == b.to_multiset(),
    ensures
        fits(a) == fits(b),
        summary(sums(a, None)) == summary(sums(b, None)),
{
    lemma_sums_unordered(a, b, None);
}

/// The summary has a row for every tool that a record is about, and for no other.
pub proof fn lemma_rows_are_tools(rs: Seq<Record>, name: Seq<char>)
    ensures
        tally::named(sums(rs, None).tools, name) <==> exists|i: int|
            0 <= i < rs.len() && tool(#[trigger] rs[i]) == Some(name),
    decreases rs.len(),
{
    if rs.len() > 0 {
        let front = rs.drop_last();
        lemma_rows_are_tools(front, name);
        if let Some(t) = tool(rs.last()) {
            tally::lemma_bumped_named(sums(front, None).tools, t, saved(rs.last()), name);
        }
        if tally::named(sums(rs, None).tools, name) {
            if tool(rs.last()) == Some(name) {
                assert(tool(rs[rs.len() - 1]) == Some(name));
            } else {
                let i = choose|i: int|
                    0 <= i < front.len() && tool(#[trigger] front[i]) == Some(name);
                assert(tool(rs[i]) == Some(name));
            }
        }
        if exists|i: int| 0 <= i < rs.len() && tool(#[trigger] rs[i]) == Some(name) {
            let i = choose|i: int| 0 <= i < rs.len() && tool(#[trigger] rs[i]) == Some(name);
            if i < front.len() {
                assert(tool(front[i]) == Some(name));
            }
        }
    }
}

/// Adds the entries up; `None` where a sum does not fit a machine word.
pub fn add_up(entries: &Vec<Entry>, unnamed: Option<&str>) -> (r: Option<Totals>)
    ensures
        r matches Some(t) ==> t.says() == sums(ledger::records(entries@), json::shown(unnamed)),
        r is None ==> {
            let s = sums(ledger::records(entries@), json::shown(unnamed));
            s.saved > usize::MAX || s.spent > usize::MAX
        },
{
    let ghost all = ledger::records(entries@);
    let ghost other = json::shown(unnamed);
    let mut saved: usize = 0;
    let mut spent: usize = 0;
    let mut original: u128 = 0;
    let mut retrievals: usize = 0;
    let mut tools: Vec<(String, usize)> = Vec::new();
    assert(tally::rows(tools@) =~= Seq::empty());
    let mut i: usize = 0;
    while i < entries.len()
        invariant
            i <= entries.len(),
            all == ledger::records(entries@),
            all.len() == entries@.len(),
            other == json::shown(unnamed),
            retrievals <= i,
            original <= i * usize::MAX,
            sums(all.take(i as int), other) == (Sums {
                saved: saved as nat,
                spent: spent as nat,
                original: original as nat,
                retrievals: retrievals as nat,
                tools: tally::rows(tools@),
            }),
        decreases entries@.len() - i,
    {
        let e = &entries[i];
        proof {
            assert(all.take(i + 1).drop_last() =~= all.take(i as int));
            assert(all.take(i + 1).last() == e.record());
            lemma_sums_grow(all, i + 1, other);
            assert(i * usize::MAX + usize::MAX == (i + 1) * usize::MAX) by (nonlinear_arith);
            assert((i + 1) * usize::MAX <= 0xffff_ffff_ffff_ffff * 0xffff_ffff_ffff_ffff)
                by (nonlinear_arith)
                requires
                    0 <= i < usize::MAX <= 0xffff_ffff_ffff_ffff,
            ;
            lemma_tools_add_up(all.take(i as int), other);
        }
        let s = saved_of(e);
        let c = cost_of(e);
        let o = orig_of(e);
        if s > usize::MAX - saved || c > usize::MAX - spent {
            return None;
        }
        let name: Option<&str> = match tool_of(e) {
            Some(t) => Some(t),
            None => unnamed,
        };
        if let Some(t) = name {
            proof {
                tally::lemma_amount_within(tally::rows(tools@), t@);
            }
            tally::bump(&mut tools, t, s);
        }
        saved = saved + s;
        spent = spent + c;
        original = original + o as u128;
        if let Entry::Retrieval(_) = e {
            retrievals = retrievals + 1;
        }
        i = i + 1;
    }
    assert(all.take(i as int) =~= all);
    Some(Totals { saved, spent, original, retrievals, tools })
}

/// The widest name, in bytes, 4 where there are none.
pub open spec fn widest(table: Seq<(Seq<char>, nat)>) -> nat
    decreases table.len(),
{
    if table.len() == 0 {
        4
    } else if table.len() == 1 {
        byte_count(table[0].0)
    } else {
        let before = widest(table.drop_last());
        let n = byte_count(table.last().0);
        if n > before {
            n
        } else {
            before
        }
    }
}

/// One row: the name in a column, the bytes, their share of the whole.
pub open spec fn row_text(name: Seq<char>, bytes: nat, width: nat, total: nat) -> Seq<char> {
    "  "@ + left_aligned(name, width) + ": "@ + grouped(decimal_of(bytes)) + " bytes ("@ + decimal_of(
        if total > 0 {
            bytes * 100 / total
        } else {
            0
        },
    ) + "%)\n"@
}

/// The rows of the table.
pub open spec fn rows_text(table: Seq<(Seq<char>, nat)>, width: nat, total: nat) -> Seq<char>
    decreases table.len(),
{
    if table.len() == 0 {
        Seq::empty()
    } else {
        rows_text(table.drop_last(), width, total) + row_text(
            table.last().0,
            table.last().1,
            width,
            total,
        )
    }
}

/// The summary of a session.
pub open spec fn summary(s: Sums) -> Seq<char> {
    "saved       : "@ + grouped(decimal_of(s.saved)) + " bytes ≈ "@ + decimal_of(tokens(s.saved))
        + " est tokens\ninject cost : "@ + grouped(decimal_of(s.spent)) + " bytes ≈ "@ + decimal_of(
        tokens(s.spent),
    ) + " est tokens\nnet         : "@ + grouped(decimal_of(minus(s.saved, s.spent)))
        + " bytes\nretrievals  : "@ + decimal_of(s.retrievals) + "\n压缩原文合计: "@ + grouped(
        decimal_of(s.original),
    ) + " bytes ≈ "@ + decimal_of(tokens(s.original))
        + " est tokens\n（悲观上限：若全部回读原文全文, 额外输入 ≈ "@ + signed_of(
        tokens(s.original) as int,
    ) + " est tok; 净省 ≈ "@ + signed_of(tokens(s.saved) - tokens(s.original) - tokens(s.spent))
        + " est tok）\n—— 骨架/外置的节省以“不回读全文”为前提; 回读即付该额外输入\n"@
        + rows_text(s.tools, widest(s.tools), s.saved)
}

fn widest_name(table: &Vec<(String, usize)>) -> (n: usize)
    ensures
        n == widest(tally::rows(table@)),
{
    let ghost all = tally::rows(table@);
    let mut n: usize = 4;
    let mut i: usize = 0;
    while i < table.len()
        invariant
            i <= table@.len(),
            all == tally::rows(table@),
            n == widest(all.take(i as int)),
        decreases table@.len() - i,
    {
        proof {
            assert(all.take(i + 1).drop_last() =~= all.take(i as int));
            assert(all.take(i + 1).last() == (table@[i as int].0@, table@[i as int].1 as nat));
        }
        let k = text::byte_len(table[i].0.as_str());
        if i == 0 || k > n {
            n = k;
        }
        i = i + 1;
    }
    assert(all.take(i as int) =~= all);
    n
}

proof fn lemma_row_within(table: Seq<(Seq<char>, nat)>, i: int)
    requires
        0 <= i < table.len(),
    ensures
        table[i].1 <= tally::total(table),
    decreases i,
{
    if i > 0 {
        lemma_row_within(table.skip(1), i - 1);
        assert(table.skip(1)[i - 1] == table[i]);
    }
}

fn rows(table: &Vec<(String, usize)>, width: usize, total: usize) -> (r: String)
    requires
        tally::total(tally::rows(table@)) * 100 <= usize::MAX,
    ensures
        r@ == rows_text(tally::rows(table@), width as nat, total as nat),
{
    let ghost all = tally::rows(table@);
    let mut out = String::new();
    let mut i: usize = 0;
    while i < table.len()
        invariant
            i <= table@.len(),
            all == tally::rows(table@),
            tally::total(all) * 100 <= usize::MAX,
            out@ == rows_text(all.take(i as int), width as nat, total as nat),
        decreases table@.len() - i,
    {
        proof {
            assert(all.take(i + 1).drop_last() =~= all.take(i as int));
            assert(all.take(i + 1).last() == (table@[i as int].0@, table@[i as int].1 as nat));
            assert(all[i as int].1 == table@[i as int].1 as nat);
            lemma_row_within(all, i as int);
        }
        let v: usize = table[i].1;
        let pct: usize = if total > 0 {
            v * 100 / total
        } else {
            0
        };
        let mut s = text::copy("  ");
        s.append(number::align_left(table[i].0.as_str(), width).as_str());
        s.append(": ");
        s.append(number::fmt_int(v).as_str());
        s.append(" bytes (");
        s.append(number::decimal(pct as u64).as_str());
        s.append("%)\n");
        out.append(s.as_str());
        i = i + 1;
    }
    assert(all.take(i as int) =~= all);
    out
}

/// The summary of a session's entries.
pub fn summarize(entries: &Vec<Entry>) -> (r: String)
    requires
        fits(ledger::records(entries@)),
    ensures
        r@ == summary(sums(ledger::records(entries@), None)),
{
    let t = match add_up(entries, None) {
        Some(t) => t,
        None => {
            return String::new();
        },
    };
    let ghost want = sums(ledger::records(entries@), None);
    proof {
        lemma_tools_add_up(ledger::records(entries@), None);
    }
    let net: usize = if t.saved > t.spent {
        t.saved - t.spent
    } else {
        0
    };
    let original: usize = t.original as usize;
    let full_tok: i64 = number::est_tok(original) as i64;
    let pess_net: i64 = number::est_tok(t.saved) as i64 - full_tok - number::est_tok(
        t.spent,
    ) as i64;
    let mut s = text::copy("saved       : ");
    s.append(number::fmt_int(t.saved).as_str());
    s.append(" bytes ≈ ");
    s.append(number::decimal(number::est_tok(t.saved) as u64).as_str());
    s.append(" est tokens\ninject cost : ");
    s.append(number::fmt_int(t.spent).as_str());
    s.append(" bytes ≈ ");
    s.append(number::decimal(number::est_tok(t.spent) as u64).as_str());
    s.append(" est tokens\nnet         : ");
    s.append(number::fmt_int(net).as_str());
    s.append(" bytes\nretrievals  : ");
    s.append(number::decimal(t.retrievals as u64).as_str());
    s.append("\n压缩原文合计: ");
    s.append(number::fmt_int(original).as_str());
    s.append(" bytes ≈ ");
    s.append(number::decimal(number::est_tok(original) as u64).as_str());
    s.append(" est tokens\n（悲观上限：若全部回读原文全文, 额外输入 ≈ ");
    s.append(number::signed(full_tok).as_str());
    s.append(" est tok; 净省 ≈ ");
    s.append(number::signed(pess_net).as_str());
    s.append(
        " est tok）\n—— 骨架/外置的节省以“不回读全文”为前提; 回读即付该额外输入\n",
    );
    s.append(rows(&t.tools, widest_name(&t.tools), t.saved).as_str());
    s
}

/// Do the sums of a session fit a machine word?
pub fn totals_fit(entries: &Vec<Entry>) -> (b: bool)
    ensures
        b == fits(ledger::records(entries@)),
{
    match add_up(entries, None) {
        Some(t) => t.saved <= usize::MAX / 100 && t.original <= usize::MAX as u128,
        None => false,
    }
}

/// The summary of a session's entries under a heading; `None` where a sum does not fit a
/// machine word.
pub fn session_report(heading: &str, session: &str, entries: &Vec<Entry>) -> (r: Option<String>)
    ensures
        r is Some <==> fits(ledger::records(entries@)),
        r matches Some(s) ==> s@ == heading@ + session@ + "\n"@ + summary(
            sums(ledger::records(entries@), None),
        ),
{
    if !totals_fit(entries) {
        return None;
    }
    let mut s = text::copy(heading);
    s.append(session);
    s.append("\n");
    s.append(summarize(entries).as_str());
    Some(s)
}

/// The rows of the report on all sessions.
pub open spec fn plain_rows(table: Seq<(Seq<char>, nat)>) -> Seq<char>
    decreases table.len(),
{
    if table.len() == 0 {
        Seq::empty()
    } else {
        plain_rows(table.drop_last()) + "  "@ + table.last().0 + ": "@ + decimal_of(table.last().1)
            + "\n"@
    }
}

/// The report on all sessions.
pub open spec fn overview(s: Sums, sessions: nat) -> Seq<char> {
    "saved: "@ + decimal_of(s.saved) + " bytes (≈ "@ + decimal_of(tokens(s.saved))
        + " est tokens) across "@ + decimal_of(sessions) + " session(s)\ninject cost: "@ + decimal_of(
        s.spent,
    ) + " bytes (≈ "@ + decimal_of(tokens(s.spent)) + " est tokens)\nnet: "@ + decimal_of(
        minus(s.saved, s.spent),
    ) + " bytes\n"@ + plain_rows(s.tools)
}

/// The report on all sessions: `entries` holds those of all ledgers, of which there are
/// `sessions`. `None` where a sum does not fit a machine word.
pub fn report_all(entries: &Vec<Entry>, sessions: usize) -> (r: Option<String>)
    ensures
        r is None <==> {
            let s = sums(ledger::records(entries@), Some("?"@));
            s.saved > usize::MAX || s.spent > usize::MAX
        },
        r matches Some(s) ==> s@ == overview(
            sums(ledger::records(entries@), Some("?"@)),
            sessions as nat,
        ),
{
    let t = match add_up(entries, Some("?")) {
        Some(t) => t,
        None => {
            return None;
        },
    };
    let net: usize = if t.saved > t.spent {
        t.saved - t.spent
    } else {
        0
    };
    let mut s = text::copy("saved: ");
    s.append(number::decimal(t.saved as u64).as_str());
    s.append(" bytes (≈ ");
    s.append(number::decimal(number::est_tok(t.saved) as u64).as_str());
    s.append(" est tokens) across ");
    s.append(number::decimal(sessions as u64).as_str());
    s.append(" session(s)\ninject cost: ");
    s.append(number::decimal(t.spent as u64).as_str());
    s.append(" bytes (≈ ");
    s.append(number::decimal(number::est_tok(t.spent) as u64).as_str());
    s.append(" est tokens)\nnet: ");
    s.append(number::decimal(net as u64).as_str());
    s.append(" bytes\n");
    let ghost head = s@;
    let ghost all = tally::rows(t.tools@);
    let mut out = String::new();
    let mut i: usize = 0;
    while i < t.tools.len()
        invariant
            i <= t.tools@.len(),
            all == tally::rows(t.tools@),
            out@ == plain_rows(all.take(i as int)),
        decreases t.tools@.len() - i,
    {
        proof {
            assert(all.take(i + 1).drop_last() =~= all.take(i as int));
            assert(all.take(i + 1).last() == (t.tools@[i as int].0@, t.tools@[i as int].1 as nat));
        }
        out.append("  ");
        out.append(t.tools[i].0.as_str());
        out.append(": ");
        out.append(number::decimal(t.tools[i].1 as u64).as_str());
        out.append("\n");
        i = i + 1;
    }
    assert(all.take(i as int) =~= all);
    s.append(out.as_str());
    Some(s)
}

/// What a report is about.
#[derive(Debug, PartialEq)]
pub enum Scope {
    /// The cache use that a transcript shows.
    CacheHit(String),
    /// Reset: delete all ledgers.
    Clean,
    /// One session, as asked for.
    Session(String),
    /// The most recent session.
    Current(String),
    /// All sessions.
    All,
}

/// What a report is about, with strings as texts.
pub enum About {
    CacheHit(Seq<char>),
    Clean,
    Session(Seq<char>),
    Current(Seq<char>),
    All,
}

impl Scope {
    /// What the report is about.
    pub open spec fn about(self) -> About {
        match self {
            Scope::CacheHit(p) => About::CacheHit(p@),
            Scope::Clean => About::Clean,
            Scope::Session(s) => About::Session(s@),
            Scope::Current(s) => About::Current(s@),
            Scope::All => About::All,
        }
    }
}

/// The first that was asked for: cache use, reset, a session, all sessions; without any, the
/// current session, or all sessions where none is recorded.
pub open spec fn about_what(
    session: Option<Seq<char>>,
    all: bool,
    clean: bool,
    cache_hit: Option<Seq<char>>,
    current: Option<Seq<char>>,
) -> About {
    if let Some(p) = cache_hit {
        About::CacheHit(p)
    } else if clean {
        About::Clean
    } else if let Some(s) = session {
        About::Session(s)
    } else if all {
        About::All
    } else if let Some(s) = current {
        About::Current(s)
    } else {
        About::All
    }
}

/// What `tsk report` is about; `current` is the session that the last hook recorded.
pub fn report(
    session: Option<String>,
    all: bool,
    clean: bool,
    cache_hit: Option<String>,
    current: Option<String>,
) -> (r: Scope)
    ensures
        r.about() == about_what(
            text::content(session),
            all,
            clean,
            text::content(cache_hit),
            text::content(current),
        ),
{
    if let Some(p) = cache_hit {
        return Scope::CacheHit(p);
    }
    if clean {
        return Scope::Clean;
    }
    if let Some(s) = session {
        return Scope::Session(s);
    }
    if all {
        return Scope::All;
    }
    if let Some(s) = current {
        return Scope::Current(s);
    }
    Scope::All
}

/// What `report --clean` says.
pub fn cleared(n: usize) -> (r: String)
    ensures
        r@ == "tsk: cleared "@ + decimal_of(n as nat)
            + " ledger file(s) + current-session marker\n"@,
{
    let mut s = text::copy("tsk: cleared ");
    s.append(number::decimal(n as u64).as_str());
    s.append(" ledger file(s) + current-session marker\n");
    s
}

/// The cache use that a transcript shows: assistant turns with usage, tokens read from the
/// cache, input tokens.
pub struct Usage {
    pub turns: nat,
    pub reads: nat,
    pub input: nat,
}

/// The cache use that records show.
pub open spec fn usage_of(docs: Seq<json::Tree>) -> Usage
    decreases docs.len(),
{
    if docs.len() == 0 {
        Usage { turns: 0, reads: 0, input: 0 }
    } else {
        let before = usage_of(docs.drop_last());
        let d = docs.last();
        match inner(d, "message"@, "usage"@) {
            Some(u) => if snapshot::typed(d, "assistant"@) {
                Usage {
                    turns: before.turns + 1,
                    reads: before.reads + number_or_zero(
                        field(u, "cache_read_input_tokens"@),
                    ) as nat,
                    input: before.input + number_or_zero(field(u, "input_tokens"@)) as nat,
                }
            } else {
                before
            },
            None => before,
        }
    }
}

/// Sums of tokens.
#[derive(Debug, Clone, Copy, PartialEq, Eq)]
pub struct CacheUse {
    pub turns: u64,
    pub reads: u64,
    pub input: u64,
}

impl CacheUse {
    /// What the sums say.
    pub open spec fn says(self) -> Usage {
        Usage { turns: self.turns as nat, reads: self.reads as nat, input: self.input as nat }
    }
}

proof fn lemma_usage_grows(docs: Seq<json::Tree>, n: int)
    requires
        0 <= n <= docs.len(),
    ensures
        usage_of(docs.take(n)).turns <= n,
        usage_of(docs.take(n)).reads <= usage_of(docs).reads,
        usage_of(docs.take(n)).input <= usage_of(docs).input,
    decreases docs.len() - n,
{
    lemma_turns(docs.take(n));
    if n == docs.len() {
        assert(docs.take(n) =~= docs);
    } else {
        lemma_usage_grows(docs, n + 1);
        assert(docs.take(n + 1).drop_last() =~= docs.take(n));
    }
}

proof fn lemma_turns(docs: Seq<json::Tree>)
    ensures
        usage_of(docs).turns <= docs.len(),
    decreases docs.len(),
{
    if docs.len() > 0 {
        lemma_turns(docs.drop_last());
    }
}

/// Cache reads and total input, from a transcript JSONL. `None` where a sum does not fit.
pub fn cache_use(transcript: &str) -> (r: Option<CacheUse>)
    ensures
        r matches Some(c) ==> c.says() == usage_of(
            snapshot::documents(text::lines_of(transcript@)),
        ),
        r is None ==> {
            let u = usage_of(snapshot::documents(text::lines_of(transcript@)));
            u.reads > u64::MAX || u.input > u64::MAX
        },
{
    let docs = snapshot::read_documents(transcript);
    let ghost all = json::trees(docs@);
    proof {
        json::lemma_trees(docs@);
    }
    let mut turns: u64 = 0;
    let mut reads: u64 = 0;
    let mut input: u64 = 0;
    let mut i: usize = 0;
    while i < docs.len()
        invariant
            i <= docs.len(),
            all == json::trees(docs@),
            all.len() == docs@.len(),
            all == snapshot::documents(text::lines_of(transcript@)),
            forall|k: int| 0 <= k < all.len() ==> #[trigger] all[k] == docs@[k].tree(),
            turns <= i,
            usage_of(all.take(i as int)) == (Usage {
                turns: turns as nat,
                reads: reads as nat,
                input: input as nat,
            }),
        decreases docs@.len() - i,
    {
        let d = &docs[i];
        proof {
            assert(all.take(i + 1).drop_last() =~= all.take(i as int));
            assert(all.take(i + 1).last() == all[i as int]);
            lemma_usage_grows(all, i + 1);
        }
        if json::is_text(d.get("type"), "assistant") {
            if let Some(u) = d.get_inner("message", "usage") {
                let n = json::as_number(u.get("input_tokens"));
                let c = json::as_number(u.get("cache_read_input_tokens"));
                if n > u64::MAX - input || c > u64::MAX - reads {
                    return None;
                }
                turns = turns + 1;
                reads = reads + c;
                input = input + n;
            }
        }
        i = i + 1;
    }
    assert(all.take(i as int) =~= all);
    Some(CacheUse { turns, reads, input })
}

/// What `report --cache-hit` says of a transcript that shows no use of input.
pub fn no_usage(path: &str) -> (r: String)
    ensures
        r@ == "cache-hit: no usage data in "@ + path@ + "\n"@,
{
    let mut s = text::copy("cache-hit: no usage data in ");
    s.append(path);
    s.append("\n");
    s
}

/// The sums of two ledgers one behind the other are the sums of each, added: what was saved,
/// what was injected, the originals, the retrievals, and what each tool saved.
#[verifier::spinoff_prover]
#[verifier::rlimit(30)]
pub proof fn lemma_ledgers_add(a: Seq<Record>, b: Seq<Record>, unnamed: Option<Seq<char>>)
    ensures
        sums(a + b, unnamed).saved == sums(a, unnamed).saved + sums(b, unnamed).saved,
        sums(a + b, unnamed).spent == sums(a, unnamed).spent + sums(b, unnamed).spent,
        sums(a + b, unnamed).original == sums(a, unnamed).original + sums(b, unnamed).original,
        sums(a + b, unnamed).retrievals == sums(a, unnamed).retrievals + sums(b, unnamed).retrievals,
        forall|name: Seq<char>| #[trigger]
            tally::amount(sums(a + b, unnamed).tools, name) == tally::amount(
                sums(a, unnamed).tools,
                name,
            ) + tally::amount(sums(b, unnamed).tools, name),
        forall|name: Seq<char>| #[trigger]
            tally::named(sums(a + b, unnamed).tools, name) <==> tally::named(
                sums(a, unnamed).tools,
                name,
            ) || tally::named(sums(b, unnamed).tools, name),
    decreases b.len(),
{
    if b.len() == 0 {
        assert(a + b =~= a);
    } else {
        let ab = a + b.drop_last();
        lemma_ledgers_add(a, b.drop_last(), unnamed);
        assert((a + b).drop_last() =~= ab);
        assert((a + b).last() == b.last());
        let r = b.last();
        let name = if tool(r) is Some {
            tool(r)
        } else {
            unnamed
        };
        if let Some(t) = name {
            lemma_tools_add_up(ab, unnamed);
            lemma_tools_add_up(b.drop_last(), unnamed);
            tally::lemma_bumped(sums(ab, unnamed).tools, t, saved(r));
            tally::lemma_bumped(sums(b.drop_last(), unnamed).tools, t, saved(r));
            assert forall|other: Seq<char>| #[trigger]
                tally::amount(sums(a + b, unnamed).tools, other) == tally::amount(
                    sums(a, unnamed).tools,
                    other,
                ) + tally::amount(sums(b, unnamed).tools, other) by {
                assert(tally::amount(sums(ab, unnamed).tools, other) == tally::amount(
                    sums(a, unnamed).tools,
                    other,
                ) + tally::amount(sums(b.drop_last(), unnamed).tools, other));
            }
            assert forall|other: Seq<char>| #[trigger]
                tally::named(sums(a + b, unnamed).tools, other) <==> tally::named(
                    sums(a, unnamed).tools,
                    other,
                ) || tally::named(sums(b, unnamed).tools, other) by {
                assert(tally::named(sums(ab, unnamed).tools, other) <==> tally::named(
                    sums(a, unnamed).tools,
                    other,
                ) || tally::named(sums(b.drop_last(), unnamed).tools, other));
                tally::lemma_bumped_named(sums(ab, unnamed).tools, t, saved(r), other);
                tally::lemma_bumped_named(sums(b.drop_last(), unnamed).tools, t, saved(r), other);
            }
        }
    }
}

/// What a ledger of one record adds up to: an injection costs its bytes and saves nothing; a
/// rewrite and a sandbox run save what they say; an externalized file saves what the pointer
/// is smaller by; a retrieval counts as one and saves nothing. The saving stands under the
/// tool.
pub proof fn lemma_single_record(r: Record, unnamed: Option<Seq<char>>)
    ensures
        match r {
            Record::Inject { bytes, .. } => sums(seq![r], unnamed) == (Sums {
                saved: 0,
                spent: bytes as nat,
                original: 0,
                retrievals: 0,
                tools: match unnamed {
                    Some(name) => seq![(name, 0nat)],
                    None => Seq::empty(),
                },
            }),
            Record::Rewrite { tool, saved, orig_bytes, .. } => sums(seq![r], unnamed) == (Sums {
                saved: saved as nat,
                spent: 0,
                original: orig_bytes as nat,
                retrievals: 0,
                tools: seq![(tool, saved as nat)],
            }),
            Record::Sandbox { tool, saved, .. } => sums(seq![r], unnamed) == (Sums {
                saved: saved as nat,
                spent: 0,
                original: 0,
                retrievals: 0,
                tools: seq![(tool, saved as nat)],
            }),
            Record::Externalize { tool, orig_bytes, new_bytes, .. } => {
                let s = sums(seq![r], unnamed);
                &&& new_bytes <= orig_bytes ==> s.saved + new_bytes == orig_bytes
                &&& new_bytes > orig_bytes ==> s.saved == 0
                &&& s.spent == 0
                &&& s.original == orig_bytes
                &&& s.retrievals == 0
                &&& s.tools == seq![(tool, s.saved)]
            },
            Record::Retrieval { tool, .. } => sums(seq![r], unnamed) == (Sums {
                saved: 0,
                spent: 0,
                original: 0,
                retrievals: 1,
                tools: seq![(tool, 0nat)],
            }),
        },
{
    reveal_with_fuel(sums, 2);
    assert(seq![r].drop_last() =~= Seq::empty());
    assert(seq![r].last() == r);
}

/// The net is what was saved less what was injected, and never below nothing.
pub proof fn lemma_net(a: nat, b: nat)
    ensures
        a >= b ==> minus(a, b) + b == a,
        a < b ==> minus(a, b) == 0,
{
}

/// A row shows the tool's name, its bytes, and the whole percent that they are of the total.
pub proof fn lemma_row_percent(name: Seq<char>, bytes: nat, width: nat, total: nat) -> (p: nat)
    requires
        total > 0,
    ensures
        p * total <= 100 * bytes < (p + 1) * total,
        holds(row_text(name, bytes, width, total), " bytes ("@ + decimal_of(p) + "%)"@),
        holds(row_text(name, bytes, width, total), ": "@ + grouped(decimal_of(bytes)) + " bytes"@),
        holds(row_text(name, bytes, width, total), name),
{
    let p = bytes * 100 / total;
    assert(p * total <= 100 * bytes < (p + 1) * total) by (nonlinear_arith)
        requires
            total > 0,
            p == bytes * 100 / total,
    ;
    reveal_strlit("%)\n");
    reveal_strlit("%)");
    reveal_strlit(" bytes (");
    reveal_strlit(" bytes");
    let row = row_text(name, bytes, width, total);
    let left = left_aligned(name, width);
    let size = grouped(decimal_of(bytes));
    let ratio = decimal_of(p);
    let front = "  "@ + left + ": "@ + size;
    assert(row == front + " bytes ("@ + ratio + "%)\n"@);
    let shown = " bytes ("@ + ratio + "%)"@;
    assert(row.subrange(front.len() as int, (front.len() + shown.len()) as int) =~= shown);
    assert(text::found_at(row, shown, front.len() as int));
    let middle = ": "@ + size + " bytes"@;
    let at = ("  "@ + left).len() as int;
    assert(row.subrange(at, at + middle.len()) =~= middle);
    assert(text::found_at(row, middle, at));
    let start = "  "@.len() as int;
    assert(row.subrange(start, start + name.len()) =~= name);
    assert(text::found_at(row, name, start));
    p
}

/// The rows of two tables one behind the other are shown one behind the other.
pub proof fn lemma_rows_concat(
    a: Seq<(Seq<char>, nat)>,
    b: Seq<(Seq<char>, nat)>,
    width: nat,
    total: nat,
)
    ensures
        rows_text(a + b, width, total) == rows_text(a, width, total) + rows_text(b, width, total),
        plain_rows(a + b) == plain_rows(a) + plain_rows(b),
    decreases b.len(),
{
    if b.len() == 0 {
        assert(a + b =~= a);
        assert(rows_text(a, width, total) + rows_text(b, width, total) =~= rows_text(
            a,
            width,
            total,
        ));
        assert(plain_rows(a) + plain_rows(b) =~= plain_rows(a));
    } else {
        lemma_rows_concat(a, b.drop_last(), width, total);
        assert((a + b).drop_last() =~= a + b.drop_last());
        assert((a + b).last() == b.last());
        assert(rows_text(a + b, width, total) =~= rows_text(a, width, total) + rows_text(
            b,
            width,
            total,
        ));
        assert(plain_rows(a + b) =~= plain_rows(a) + plain_rows(b));
    }
}

/// A table of one row shows that row: the name, a colon, and the bytes.
pub proof fn lemma_plain_row(name: Seq<char>, bytes: nat)
    ensures
        plain_rows(seq![(name, bytes)]) == "  "@ + name + ": "@ + decimal_of(bytes) + "\n"@,
{
    let t = seq![(name, bytes)];
    assert(t.drop_last() =~= Seq::empty());
    assert(plain_rows(t.drop_last()) =~= Seq::empty());
    assert(plain_rows(t) =~= "  "@ + name + ": "@ + decimal_of(bytes) + "\n"@);
}

/// The names get as many columns as the longest of them has bytes.
pub proof fn lemma_widest(table: Seq<(Seq<char>, nat)>)
    requires
        table.len() > 0,
    ensures
        forall|i: int| 0 <= i < table.len() ==> byte_count((#[trigger] table[i]).0) <= widest(table),
        exists|i: int| 0 <= i < table.len() && byte_count((#[trigger] table[i]).0) == widest(table),
    decreases table.len(),
{
    if table.len() == 1 {
        assert(byte_count(table[0].0) == widest(table));
    } else {
        let front = table.drop_last();
        lemma_widest(front);
        let k = choose|i: int|
            0 <= i < front.len() && byte_count((#[trigger] front[i]).0) == widest(front);
        assert(table[k] == front[k]);
        assert(table[table.len() - 1] == table.last());
        assert forall|i: int| 0 <= i < table.len() implies byte_count((#[trigger] table[i]).0)
            <= widest(table) by {
            if i < front.len() {
                assert(front[i] == table[i]);
            }
        }
    }
}

/// The summary shows what was saved, what was injected, what is left of the saving once the
/// injections are paid, how often a file was read back, and a row for every tool.
#[verifier::spinoff_prover]
#[verifier::rlimit(30)]
pub proof fn lemma_summary_shows(s: Sums, net: nat, i: int)
    requires
        s.saved >= s.spent ==> net + s.spent == s.saved,
        s.saved < s.spent ==> net == 0,
    ensures
        holds(summary(s), "saved       : "@ + grouped(decimal_of(s.saved)) + " bytes ≈ "@),
        holds(
            summary(s),
            " est tokens\ninject cost : "@ + grouped(decimal_of(s.spent)) + " bytes ≈ "@,
        ),
        holds(
            summary(s),
            " est tokens\nnet         : "@ + grouped(decimal_of(net)) + " bytes\nretrievals  : "@,
        ),
        holds(summary(s), " bytes\nretrievals  : "@ + decimal_of(s.retrievals) + "\n压缩原文合计: "@),
        holds(summary(s), "\n压缩原文合计: "@ + grouped(decimal_of(s.original)) + " bytes ≈ "@),
        0 <= i < s.tools.len() ==> exists|width: nat| #[trigger]
            holds(summary(s), row_text(s.tools[i].0, s.tools[i].1, width, s.saved)),
{
    let t = summary(s);
    let original = tokens(s.original);
    let rows = rows_text(s.tools, widest(s.tools), s.saved);
    let p0 = "saved       : "@ + grouped(decimal_of(s.saved)) + " bytes ≈ "@;
    let p1 = p0 + decimal_of(tokens(s.saved));
    let p2 = p1 + " est tokens\ninject cost : "@ + grouped(decimal_of(s.spent)) + " bytes ≈ "@;
    let p3 = p2 + decimal_of(tokens(s.spent));
    let p4 = p3 + " est tokens\nnet         : "@ + grouped(decimal_of(minus(s.saved, s.spent)));
    let p5 = p4 + " bytes\nretrievals  : "@ + decimal_of(s.retrievals);
    let p6 = p5 + "\n压缩原文合计: "@ + grouped(decimal_of(s.original));
    let p7 = p6 + " bytes ≈ "@;
    let p8 = p7 + decimal_of(original);
    let p9 = p8 + " est tokens\n（悲观上限：若全部回读原文全文, 额外输入 ≈ "@;
    let p10 = p9 + signed_of(original as int);
    let p11 = p10 + " est tok; 净省 ≈ "@;
    let p12 = p11 + signed_of(tokens(s.saved) - original - tokens(s.spent));
    let p13 = p12
        + " est tok）\n—— 骨架/外置的节省以“不回读全文”为前提; 回读即付该额外输入\n"@;
    assert(minus(s.saved, s.spent) == net);
    assert(t == p13 + rows);
    assert(t.subrange(0, t.len() as int) =~= t);
    text::lemma_begins_first(t, p13, rows);
    if 0 <= i < s.tools.len() {
        let w = widest(s.tools);
        lemma_row_within_text(s.tools, w, s.saved, i);
        text::lemma_has_concat(p13, rows, row_text(s.tools[i].0, s.tools[i].1, w, s.saved));
    }
    text::lemma_begins_first(
        t,
        p12,
        " est tok）\n—— 骨架/外置的节省以“不回读全文”为前提; 回读即付该额外输入\n"@,
    );
    text::lemma_begins_first(t, p11, signed_of(tokens(s.saved) - original - tokens(s.spent)));
    text::lemma_begins_first(t, p10, " est tok; 净省 ≈ "@);
    text::lemma_begins_first(t, p9, signed_of(original as int));
    text::lemma_begins_first(
        t,
        p8,
        " est tokens\n（悲观上限：若全部回读原文全文, 额外输入 ≈ "@,
    );
    text::lemma_begins_first(t, p7, decimal_of(original));
    lemma_shown(t, p5, "\n压缩原文合计: "@, grouped(decimal_of(s.original)), " bytes ≈ "@);
    text::lemma_begins_first(t, p6, " bytes ≈ "@);
    text::lemma_begins_first(t, p5 + "\n压缩原文合计: "@, grouped(decimal_of(s.original)));
    lemma_shown(t, p4, " bytes\nretrievals  : "@, decimal_of(s.retrievals), "\n压缩原文合计: "@);
    text::lemma_begins_first(t, p5, "\n压缩原文合计: "@);
    text::lemma_begins_first(t, p4 + " bytes\nretrievals  : "@, decimal_of(s.retrievals));
    lemma_shown(
        t,
        p3,
        " est tokens\nnet         : "@,
        grouped(decimal_of(net)),
        " bytes\nretrievals  : "@,
    );
    text::lemma_begins_first(t, p4, " bytes\nretrievals  : "@);
    text::lemma_begins_first(t, p3 + " est tokens\nnet         : "@, grouped(decimal_of(net)));
    text::lemma_begins_first(t, p3, " est tokens\nnet         : "@);
    text::lemma_begins_first(t, p2, decimal_of(tokens(s.spent)));
    lemma_shown(
        t,
        p1,
        " est tokens\ninject cost : "@,
        grouped(decimal_of(s.spent)),
        " bytes ≈ "@,
    );
    text::lemma_begins_first(
        t,
        p1 + " est tokens\ninject cost : "@ + grouped(decimal_of(s.spent)),
        " bytes ≈ "@,
    );
    text::lemma_begins_first(
        t,
        p1 + " est tokens\ninject cost : "@,
        grouped(decimal_of(s.spent)),
    );
    text::lemma_begins_first(t, p1, " est tokens\ninject cost : "@);
    text::lemma_begins_first(t, p0, decimal_of(tokens(s.saved)));
}

proof fn lemma_shown(t: Seq<char>, front: Seq<char>, a: Seq<char>, b: Seq<char>, c: Seq<char>)
    requires
        text::begins(t, front + a + b + c),
    ensures
        holds(t, a + b + c),
{
    assert(front + a + b + c =~= front + (a + b + c));
    text::lemma_begins_holds(t, front, a + b + c);
}

proof fn lemma_row_within_text(table: Seq<(Seq<char>, nat)>, width: nat, total: nat, i: int)
    requires
        0 <= i < table.len(),
    ensures
        holds(
            rows_text(table, width, total),
            row_text(table[i].0, table[i].1, width, total),
        ),
    decreases table.len(),
{
    let row = row_text(table[i].0, table[i].1, width, total);
    let front = rows_text(table.drop_last(), width, total);
    let last = row_text(table.last().0, table.last().1, width, total);
    if i < table.len() - 1 {
        lemma_row_within_text(table.drop_last(), width, total, i);
    } else {
        assert(row.subrange(0, row.len() as int) =~= row);
        assert(text::found_at(last, row, 0));
    }
    text::lemma_has_concat(front, last, row);
}

/// The overview of all sessions shows how many there are, what was saved, what was injected
/// and the net.
pub proof fn lemma_overview_shows(s: Sums, sessions: nat, net: nat)
    requires
        s.saved >= s.spent ==> net + s.spent == s.saved,
        s.saved < s.spent ==> net == 0,
    ensures
        holds(overview(s, sessions), "saved: "@ + decimal_of(s.saved) + " bytes (≈ "@),
        holds(
            overview(s, sessions),
            " est tokens) across "@ + decimal_of(sessions) + " session(s)\ninject cost: "@
                + decimal_of(s.spent) + " bytes (≈ "@,
        ),
        holds(overview(s, sessions), " est tokens)\nnet: "@ + decimal_of(net) + " bytes\n"@),
        overview(s, sessions).skip(overview(s, sessions).len() - plain_rows(s.tools).len())
            == plain_rows(s.tools),
{
    let a1 = "saved: "@ + decimal_of(s.saved) + " bytes (≈ "@;
    let a2 = decimal_of(tokens(s.saved));
    let a3 = " est tokens) across "@ + decimal_of(sessions) + " session(s)\ninject cost: "@
        + decimal_of(s.spent) + " bytes (≈ "@;
    let a4 = decimal_of(tokens(s.spent));
    let a5 = " est tokens)\nnet: "@ + decimal_of(net) + " bytes\n"@;
    let t = overview(s, sessions);
    assert(minus(s.saved, s.spent) == net);
    assert(t =~= a1 + a2 + a3 + a4 + a5 + plain_rows(s.tools));
    let p2 = a1 + a2;
    let p4 = p2 + a3 + a4;
    assert(t.subrange(0, a1.len() as int) =~= a1);
    assert(text::found_at(t, a1, 0));
    assert(t.subrange(p2.len() as int, (p2.len() + a3.len()) as int) =~= a3);
    assert(text::found_at(t, a3, p2.len() as int));
    assert(t.subrange(p4.len() as int, (p4.len() + a5.len()) as int) =~= a5);
    assert(text::found_at(t, a5, p4.len() as int));
}

/// A question about cache use is answered whatever else is asked; then comes the reset, then
/// the session that was named, then all of them; the current session is reported only where
/// nothing is asked for.
pub proof fn lemma_scope(
    session: Option<Seq<char>>,
    all: bool,
    clean: bool,
    cache_hit: Option<Seq<char>>,
    current: Option<Seq<char>>,
)
    ensures
        about_what(session, all, clean, cache_hit, current) is CacheHit <==> cache_hit is Some,
        about_what(session, all, clean, cache_hit, current) is Clean <==> cache_hit is None && clean,
        about_what(session, all, clean, cache_hit, current) is Session <==> cache_hit is None
            && !clean && session is Some,
        about_what(session, all, clean, cache_hit, current) is Current <==> cache_hit is None
            && !clean && session is None && !all && current is Some,
        about_what(session, all, clean, cache_hit, current) matches About::CacheHit(p) ==> cache_hit
            == Some(p),
        about_what(session, all, clean, cache_hit, current) matches About::Session(p) ==> session
            == Some(p),
        about_what(session, all, clean, cache_hit, current) matches About::Current(p) ==> current
            == Some(p),
{
}

/// The cache use of two transcripts one behind the other is that of each, added.
pub proof fn lemma_usage_adds(a: Seq<json::Tree>, b: Seq<json::Tree>)
    ensures
        usage_of(a + b).turns == usage_of(a).turns + usage_of(b).turns,
        usage_of(a + b).reads == usage_of(a).reads + usage_of(b).reads,
        usage_of(a + b).input == usage_of(a).input + usage_of(b).input,
    decreases b.len(),
{
    if b.len() == 0 {
        assert(a + b =~= a);
    } else {
        lemma_usage_adds(a, b.drop_last());
        assert((a + b).drop_last() =~= a + b.drop_last());
        assert((a + b).last() == b.last());
    }
}

/// A record of the assistant with a use in it is one turn, with the tokens that it says; any
/// other record is none.
pub proof fn lemma_usage_of_one(d: json::Tree, u: json::Tree)
    ensures
        inner(d, "message"@, "usage"@) == Some(u) && string(field(d, "type"@)) == Some(
            "assistant"@,
        ) ==> usage_of(seq![d]) == (Usage {
            turns: 1,
            reads: number_or_zero(field(u, "cache_read_input_tokens"@)) as nat,
            input: number_or_zero(field(u, "input_tokens"@)) as nat,
        }),
        inner(d, "message"@, "usage"@) is None || string(field(d, "type"@)) != Some("assistant"@)
            ==> usage_of(seq![d]) == (Usage { turns: 0, reads: 0, input: 0 }),
{
    reveal_with_fuel(usage_of, 2);
    assert(seq![d].drop_last() =~= Seq::empty());
    assert(seq![d].last() == d);
}

/// The summary shows the estimates of what was saved and injected and of the originals, four
/// bytes to a token, rounded up, and what would be left of the saving if every original were
/// read back.
#[verifier::spinoff_prover]
#[verifier::rlimit(30)]
pub proof fn lemma_summary_estimates(s: Sums, saved: nat, spent: nat, original: nat)
    requires
        4 * saved >= s.saved > 4 * saved - 4,
        4 * spent >= s.spent > 4 * spent - 4,
        4 * original >= s.original > 4 * original - 4,
    ensures
        holds(summary(s), " bytes ≈ "@ + decimal_of(saved) + " est tokens\ninject cost : "@),
        holds(summary(s), " bytes ≈ "@ + decimal_of(spent) + " est tokens\nnet         : "@),
        holds(
            summary(s),
            " bytes ≈ "@ + decimal_of(original)
                + " est tokens\n（悲观上限：若全部回读原文全文, 额外输入 ≈ "@,
        ),
        holds(
            summary(s),
            " est tok; 净省 ≈ "@ + signed_of(saved - original - spent)
                + " est tok）\n—— 骨架/外置的节省以“不回读全文”为前提; 回读即付该额外输入\n"@,
        ),
{
    let t = summary(s);
    assert(tokens(s.saved) == saved);
    assert(tokens(s.spent) == spent);
    assert(tokens(s.original) == original);
    let rows = rows_text(s.tools, widest(s.tools), s.saved);
    let p0 = "saved       : "@ + grouped(decimal_of(s.saved));
    let p1 = p0 + " bytes ≈ "@ + decimal_of(saved) + " est tokens\ninject cost : "@;
    let p2 = p1 + grouped(decimal_of(s.spent));
    let p3 = p2 + " bytes ≈ "@ + decimal_of(spent) + " est tokens\nnet         : "@;
    let p4 = p3 + grouped(decimal_of(minus(s.saved, s.spent)));
    let p5 = p4 + " bytes\nretrievals  : "@;
    let p6 = p5 + decimal_of(s.retrievals);
    let p7 = p6 + "\n压缩原文合计: "@;
    let p8 = p7 + grouped(decimal_of(s.original));
    let note = " est tokens\n（悲观上限：若全部回读原文全文, 额外输入 ≈ "@;
    let p9 = p8 + " bytes ≈ "@ + decimal_of(original) + note;
    let p10 = p9 + signed_of(original as int);
    let end = " est tok）\n—— 骨架/外置的节省以“不回读全文”为前提; 回读即付该额外输入\n"@;
    let p11 = p10 + " est tok; 净省 ≈ "@ + signed_of(saved - original - spent) + end;
    assert(t == p11 + rows);
    assert(t.subrange(0, t.len() as int) =~= t);
    text::lemma_begins_first(t, p11, rows);
    lemma_shown(t, p10, " est tok; 净省 ≈ "@, signed_of(saved - original - spent), end);
    lemma_begins_before(t, p10, " est tok; 净省 ≈ "@, signed_of(saved - original - spent), end);
    text::lemma_begins_first(t, p9, signed_of(original as int));
    lemma_shown(t, p8, " bytes ≈ "@, decimal_of(original), note);
    lemma_begins_before(t, p8, " bytes ≈ "@, decimal_of(original), note);
    text::lemma_begins_first(t, p7, grouped(decimal_of(s.original)));
    text::lemma_begins_first(t, p6, "\n压缩原文合计: "@);
    text::lemma_begins_first(t, p5, decimal_of(s.retrievals));
    text::lemma_begins_first(t, p4, " bytes\nretrievals  : "@);
    text::lemma_begins_first(t, p3, grouped(decimal_of(minus(s.saved, s.spent))));
    lemma_shown(t, p2, " bytes ≈ "@, decimal_of(spent), " est tokens\nnet         : "@);
    lemma_begins_before(t, p2, " bytes ≈ "@, decimal_of(spent), " est tokens\nnet         : "@);
    text::lemma_begins_first(t, p1, grouped(decimal_of(s.spent)));
    lemma_shown(t, p0, " bytes ≈ "@, decimal_of(saved), " est tokens\ninject cost : "@);
}

proof fn lemma_begins_before(
    t: Seq<char>,
    front: Seq<char>,
    a: Seq<char>,
    b: Seq<char>,
    c: Seq<char>,
)
    requires
        text::begins(t, front + a + b + c),
    ensures
        text::begins(t, front),
{
    assert(front + a + b + c =~= front + (a + b + c));
    text::lemma_begins_first(t, front, a + b + c);
}

/// The overview shows the estimates too, four bytes to a token, rounded up.
pub proof fn lemma_overview_estimates(s: Sums, sessions: nat, saved: nat, spent: nat)
    requires
        4 * saved >= s.saved > 4 * saved - 4,
        4 * spent >= s.spent > 4 * spent - 4,
    ensures
        holds(
            overview(s, sessions),
            " bytes (≈ "@ + decimal_of(saved) + " est tokens) across "@,
        ),
        holds(overview(s, sessions), " bytes (≈ "@ + decimal_of(spent) + " est tokens)\nnet: "@),
{
    let t = overview(s, sessions);
    assert(tokens(s.saved) == saved);
    assert(tokens(s.spent) == spent);
    let rows = plain_rows(s.tools);
    let p0 = "saved: "@ + decimal_of(s.saved);
    let p1 = p0 + " bytes (≈ "@ + decimal_of(saved) + " est tokens) across "@;
    let p2 = p1 + decimal_of(sessions);
    let p3 = p2 + " session(s)\ninject cost: "@;
    let p4 = p3 + decimal_of(s.spent);
    let p5 = p4 + " bytes (≈ "@ + decimal_of(spent) + " est tokens)\nnet: "@;
    let p6 = p5 + decimal_of(minus(s.saved, s.spent));
    let p7 = p6 + " bytes\n"@;
    assert(t == p7 + rows);
    assert(t.subrange(0, t.len() as int) =~= t);
    text::lemma_begins_first(t, p7, rows);
    text::lemma_begins_first(t, p6, " bytes\n"@);
    text::lemma_begins_first(t, p5, decimal_of(minus(s.saved, s.spent)));
    lemma_shown(t, p4, " bytes (≈ "@, decimal_of(spent), " est tokens)\nnet: "@);
    lemma_begins_before(t, p4, " bytes (≈ "@, decimal_of(spent), " est tokens)\nnet: "@);
    text::lemma_begins_first(t, p3, decimal_of(s.spent));
    text::lemma_begins_first(t, p2, " session(s)\ninject cost: "@);
    text::lemma_begins_first(t, p1, decimal_of(sessions));
    lemma_shown(t, p0, " bytes (≈ "@, decimal_of(saved), " est tokens) across "@);
}

} // verus!
