//! TSK's hook entries in an agent's settings: adding them, finding them, taking them out.

use vstd::prelude::*;

use crate::events::Event;
use crate::json;
use crate::json::{distinct, field, member_map, rendered, trees, Json, Tree};
use crate::text;
use crate::text::holds;

verus! {

/// Is this one of TSK's entries? Its text says so.
pub open spec fn ours(t: Tree) -> bool {
    holds(rendered(t), "tsk hook"@)
}

/// Does the document name a TSK hook anywhere?
pub fn has_tsk_hook(v: &Json) -> (b: bool)
    ensures
        b == ours(v.tree()),
{
    text::contains(v.render().as_str(), "tsk hook")
}

/// The command that an event runs.
pub open spec fn command(ev: Event) -> Seq<char> {
    "tsk hook "@ + ev.title()
}

/// Is the hook of an event limited to the `Read` tool?
pub open spec fn on_read(ev: Event) -> bool {
    ev == Event::PreToolUse || ev == Event::PostToolUse
}

/// `{"type": "command", "command": ...}`.
pub open spec fn command_tree(ev: Event) -> Tree {
    Tree::Object(
        Map::<Seq<char>, Tree>::empty().insert("type"@, Tree::Text("command"@)).insert(
            "command"@,
            Tree::Text(command(ev)),
        ),
    )
}

/// The entry that wires an event.
pub open spec fn entry_tree(ev: Event) -> Tree {
    let hooks = Map::<Seq<char>, Tree>::empty().insert(
        "hooks"@,
        Tree::List(seq![command_tree(ev)]),
    );
    Tree::Object(
        if on_read(ev) {
            hooks.insert("matcher"@, Tree::Text("Read"@))
        } else {
            hooks
        },
    )
}

/// Does the list hold one of TSK's entries?
pub open spec fn any_ours(list: Seq<Tree>) -> bool {
    exists|i: int| 0 <= i < list.len() && ours(#[trigger] list[i])
}

/// The hooks with one event wired; a list that has an entry of TSK's stays as it is.
pub open spec fn with_event(h: Map<Seq<char>, Tree>, ev: Event) -> Map<Seq<char>, Tree> {
    if !h.dom().contains(ev.title()) {
        h.insert(ev.title(), Tree::List(seq![entry_tree(ev)]))
    } else {
        match h[ev.title()] {
            Tree::List(list) => if any_ours(list) {
                h
            } else {
                h.insert(ev.title(), Tree::List(list.push(entry_tree(ev))))
            },
            _ => h,
        }
    }
}

/// The hooks with every event wired.
pub open spec fn with_events(h: Map<Seq<char>, Tree>) -> Map<Seq<char>, Tree> {
    with_event(
        with_event(
            with_event(
                with_event(with_event(h, Event::PostToolUse), Event::PreCompact),
                Event::PreToolUse,
            ),
            Event::SessionStart,
        ),
        Event::UserPromptSubmit,
    )
}

/// The settings with TSK's hooks; settings of another shape stay as they are.
pub open spec fn added(t: Tree) -> Tree {
    match t {
        Tree::Object(o) => match field(t, "hooks"@) {
            None => Tree::Object(
                o.insert("hooks"@, Tree::Object(with_events(Map::<Seq<char>, Tree>::empty()))),
            ),
            Some(Tree::Object(h)) => Tree::Object(
                o.insert("hooks"@, Tree::Object(with_events(h))),
            ),
            Some(_) => t,
        },
        _ => t,
    }
}

/// Every entry that `added` can add is recognized as one of TSK's.
pub open spec fn recognized() -> bool {
    forall|ev: Event| ours(#[trigger] entry_tree(ev))
}

proof fn lemma_command(ev: Event)
    ensures
        json::plain(command(ev)),
        holds(seq!['"'] + command(ev) + seq!['"'], "tsk hook"@),
{
    reveal_strlit("tsk hook ");
    reveal_strlit("tsk hook");
    reveal_strlit("PreToolUse");
    reveal_strlit("PostToolUse");
    reveal_strlit("SessionStart");
    reveal_strlit("UserPromptSubmit");
    reveal_strlit("PreCompact");
    let s = seq!['"'] + command(ev) + seq!['"'];
    assert(s.subrange(1, 9) =~= "tsk hook"@);
    assert(text::found_at(s, "tsk hook"@, 1));
}

/// The entry that wires an event; it is recognized as one of TSK's.
fn tsk_entry(ev: Event) -> (r: Json)
    ensures
        r.tree() == entry_tree(ev),
        ours(r.tree()),
{
    let mut line = text::copy("tsk hook ");
    line.append(ev.name());
    let run = Json::Text(line);
    let run_text = run.render();
    let mut cmd: Vec<(String, Json)> = Vec::new();
    json::put(&mut cmd, "type", Json::Text(text::copy("command")));
    json::put(&mut cmd, "command", run);
    let hook = Json::Object(cmd);
    let hook_text = hook.render();
    let mut items: Vec<Json> = Vec::new();
    items.push(hook);
    let ghost held = items@;
    let list = Json::List(items);
    let list_text = list.render();
    let mut entry: Vec<(String, Json)> = Vec::new();
    json::put(&mut entry, "hooks", list);
    match ev {
        Event::PreToolUse | Event::PostToolUse => {
            json::put(&mut entry, "matcher", Json::Text(text::copy("Read")));
        },
        _ => {},
    }
    let r = Json::Object(entry);
    let entry_text = r.render();
    proof {
        let want = "tsk hook"@;
        json::lemma_trees(held);
        assert(trees(held) =~= seq![command_tree(ev)]);
        assert(hook.tree() == command_tree(ev));
        assert(r.tree() == entry_tree(ev));
        lemma_command(ev);
        assert(holds(run_text@, want));
        let h = hook.tree()->Object_0;
        assert(h.dom().contains("command"@));
        text::lemma_has_within(hook_text@, run_text@, want);
        let l = list.tree()->List_0;
        assert(l[0] == hook.tree());
        text::lemma_has_within(list_text@, hook_text@, want);
        let e = r.tree()->Object_0;
        reveal_strlit("hooks");
        reveal_strlit("matcher");
        assert("hooks"@.len() != "matcher"@.len());
        assert(e.dom().contains("hooks"@));
        assert(e["hooks"@] == list.tree());
        text::lemma_has_within(entry_text@, list_text@, want);
    }
    r
}

fn list_has_ours(list: &Vec<Json>) -> (b: bool)
    ensures
        b == any_ours(trees(list@)),
{
    let mut i: usize = 0;
    proof {
        json::lemma_trees(list@);
    }
    let ghost all = trees(list@);
    while i < list.len()
        invariant
            i <= list@.len(),
            all == trees(list@),
            all.len() == list@.len(),
            forall|k: int| 0 <= k < all.len() ==> #[trigger] all[k] == list@[k].tree(),
            forall|k: int| 0 <= k < i ==> !ours(#[trigger] all[k]),
        decreases list@.len() - i,
    {
        if has_tsk_hook(&list[i]) {
            assert(ours(all[i as int]));
            return true;
        }
        i = i + 1;
    }
    false
}

/// Wires one event.
fn wire(h: &mut Vec<(String, Json)>, ev: Event)
    requires
        distinct(old(h)@),
    ensures
        distinct(final(h)@),
        member_map(final(h)@) == with_event(member_map(old(h)@), ev),
        ours(entry_tree(ev)),
{
    let entry = tsk_entry(ev);
    let ghost m = member_map(h@);
    let slot: Option<Json> = match json::find(h, ev.name()) {
        Some(j) => Some(j.copy()),
        None => None,
    };
    match slot {
        None => {
            let mut list: Vec<Json> = Vec::new();
            list.push(entry);
            proof {
                json::lemma_trees(list@);
                assert(trees(list@) =~= seq![entry_tree(ev)]);
            }
            json::put(h, ev.name(), Json::List(list));
        },
        Some(Json::List(items)) => {
            if !list_has_ours(&items) {
                let mut list = items;
                let ghost before = list@;
                list.push(entry);
                proof {
                    assert(list@.drop_last() =~= before);
                    assert(trees(list@) =~= trees(before).push(entry_tree(ev)));
                }
                json::put(h, ev.name(), Json::List(list));
            }
        },
        Some(_) => {},
    }
}

/// A copy of the members of an object, each key once.
fn members_of(j: &Json) -> (r: Option<Vec<(String, Json)>>)
    ensures
        r is Some <==> j.tree() is Object,
        r matches Some(m) ==> distinct(m@) && j.tree() == Tree::Object(member_map(m@)),
{
    match j.copy() {
        Json::Object(members) => Some(json::settled(members)),
        _ => None,
    }
}

/// The settings with TSK's hook entries. Install is additive: entries are appended, never
/// replacing anything, and never twice: adding again changes nothing, and taking the hooks
/// out again leaves no residue.
pub fn add_tsk_hooks(obj: &Json) -> (r: Json)
    ensures
        r.tree() == added(obj.tree()),
        added(r.tree()) == r.tree(),
        stripped(r.tree()) == stripped(obj.tree()),
{
    let top = members_of(obj);
    let hooks: Option<Option<Vec<(String, Json)>>> = match obj.get("hooks") {
        None => None,
        Some(j) => Some(members_of(j)),
    };
    // Wiring an empty table shows that each entry is recognized.
    let mut fresh: Vec<(String, Json)> = Vec::new();
    wire(&mut fresh, Event::PostToolUse);
    wire(&mut fresh, Event::PreCompact);
    wire(&mut fresh, Event::PreToolUse);
    wire(&mut fresh, Event::SessionStart);
    wire(&mut fresh, Event::UserPromptSubmit);
    proof {
        assert forall|ev: Event| ours(#[trigger] entry_tree(ev)) by {
            match ev {
                Event::PreToolUse => {},
                Event::PostToolUse => {},
                Event::SessionStart => {},
                Event::UserPromptSubmit => {},
                Event::PreCompact => {},
            }
        }
        lemma_added_twice(obj.tree());
        lemma_strip_undoes_add(obj.tree());
    }
    match top {
        None => obj.copy(),
        Some(members) => {
            let mut o = members;
            match hooks {
                None => {
                    json::put(&mut o, "hooks", Json::Object(fresh));
                    Json::Object(o)
                },
                Some(None) => obj.copy(),
                Some(Some(own)) => {
                    let mut h = own;
                    wire(&mut h, Event::PostToolUse);
                    wire(&mut h, Event::PreCompact);
                    wire(&mut h, Event::PreToolUse);
                    wire(&mut h, Event::SessionStart);
                    wire(&mut h, Event::UserPromptSubmit);
                    json::put(&mut o, "hooks", Json::Object(h));
                    Json::Object(o)
                },
            }
        },
    }
}

/// The entries that are not TSK's.
pub open spec fn others(list: Seq<Tree>) -> Seq<Tree>
    decreases list.len(),
{
    if list.len() == 0 {
        Seq::empty()
    } else if ours(list.last()) {
        others(list.drop_last())
    } else {
        others(list.drop_last()).push(list.last())
    }
}

/// The hooks without TSK's entries; lists that are then empty go, and so does what is no
/// list.
pub open spec fn kept_hooks(h: Map<Seq<char>, Tree>) -> Map<Seq<char>, Tree> {
    Map::new(
        |k: Seq<char>|
            h.dom().contains(k) && h[k] is List && others(h[k]->List_0).len() > 0,
        |k: Seq<char>| Tree::List(others(h[k]->List_0)),
    )
}

/// The settings without TSK's hook entries.
pub open spec fn stripped(t: Tree) -> Tree {
    match t {
        Tree::Object(o) => match field(t, "hooks"@) {
            Some(Tree::Object(h)) => {
                let kept = kept_hooks(h);
                if kept == Map::<Seq<char>, Tree>::empty() {
                    Tree::Object(o.remove("hooks"@))
                } else {
                    Tree::Object(o.insert("hooks"@, Tree::Object(kept)))
                }
            },
            _ => t,
        },
        _ => t,
    }
}

/// Settings in which TSK has left nothing: every list of hooks, if there is any, holds
/// entries, and none of them is TSK's.
pub open spec fn clean(t: Tree) -> bool {
    t is Object && match field(t, "hooks"@) {
        None => true,
        Some(Tree::Object(h)) => {
            &&& h != Map::<Seq<char>, Tree>::empty()
            &&& forall|k: Seq<char>| #[trigger]
                h.dom().contains(k) ==> h[k] is List && h[k]->List_0.len() > 0 && !any_ours(
                    h[k]->List_0,
                )
        },
        Some(_) => true,
    }
}

proof fn lemma_others_none(list: Seq<Tree>)
    requires
        !any_ours(list),
    ensures
        others(list) == list,
    decreases list.len(),
{
    if list.len() > 0 {
        let front = list.drop_last();
        assert(!ours(list[list.len() - 1]));
        assert(!any_ours(front)) by {
            if any_ours(front) {
                let i = choose|i: int| 0 <= i < front.len() && ours(#[trigger] front[i]);
                assert(ours(list[i]));
            }
        }
        lemma_others_none(front);
        assert(front.push(list.last()) =~= list);
    }
}

proof fn lemma_others_clean(list: Seq<Tree>)
    ensures
        !any_ours(others(list)),
        others(list).len() <= list.len(),
    decreases list.len(),
{
    if list.len() > 0 {
        let front = list.drop_last();
        lemma_others_clean(front);
        if !ours(list.last()) {
            let o = others(front);
            let r = others(list);
            assert(r == o.push(list.last()));
            if any_ours(r) {
                let i = choose|i: int| 0 <= i < r.len() && ours(#[trigger] r[i]);
                if i < o.len() {
                    assert(ours(o[i]));
                }
            }
        }
    }
}

proof fn lemma_event_twice(h: Map<Seq<char>, Tree>, ev: Event, other: Event)
    requires
        ours(entry_tree(ev)),
        ours(entry_tree(other)),
        with_event(h, ev) == h,
    ensures
        with_event(with_event(h, other), ev) == with_event(h, other),
{
    crate::events::lemma_titles_distinct_all(ev, other);
    let g = with_event(h, other);
    if ev == other {
        if !h.dom().contains(ev.title()) {
            assert(false) by {
                assert(with_event(h, ev).dom().contains(ev.title()));
            }
        }
    }
}

proof fn lemma_event_once(h: Map<Seq<char>, Tree>, ev: Event)
    requires
        ours(entry_tree(ev)),
    ensures
        with_event(with_event(h, ev), ev) == with_event(h, ev),
{
    let g = with_event(h, ev);
    if !h.dom().contains(ev.title()) {
        let list = seq![entry_tree(ev)];
        assert(ours(list[0]));
        assert(any_ours(list));
    } else if let Tree::List(list) = h[ev.title()] {
        if !any_ours(list) {
            let more = list.push(entry_tree(ev));
            assert(ours(more[list.len() as int]));
            assert(any_ours(more));
        }
    }
}

proof fn lemma_events_twice(h: Map<Seq<char>, Tree>)
    requires
        recognized(),
    ensures
        with_events(with_events(h)) == with_events(h),
{
    let a = Event::PostToolUse;
    let b = Event::PreCompact;
    let c = Event::PreToolUse;
    let d = Event::SessionStart;
    let e = Event::UserPromptSubmit;
    let h1 = with_event(h, a);
    let h2 = with_event(h1, b);
    let h3 = with_event(h2, c);
    let h4 = with_event(h3, d);
    let h5 = with_event(h4, e);
    assert(ours(entry_tree(a)) && ours(entry_tree(b)) && ours(entry_tree(c)) && ours(entry_tree(d))
        && ours(entry_tree(e)));
    lemma_event_once(h, a);
    lemma_event_twice(h1, a, b);
    lemma_event_twice(h2, a, c);
    lemma_event_twice(h3, a, d);
    lemma_event_twice(h4, a, e);
    lemma_event_once(h1, b);
    lemma_event_twice(h2, b, c);
    lemma_event_twice(h3, b, d);
    lemma_event_twice(h4, b, e);
    lemma_event_once(h2, c);
    lemma_event_twice(h3, c, d);
    lemma_event_twice(h4, c, e);
    lemma_event_once(h3, d);
    lemma_event_twice(h4, d, e);
    lemma_event_once(h4, e);
}

/// Adding the hooks twice is adding them once.
pub proof fn lemma_added_twice(t: Tree)
    requires
        recognized(),
    ensures
        added(added(t)) == added(t),
{
    if let Tree::Object(o) = t {
        match field(t, "hooks"@) {
            None => {
                lemma_events_twice(Map::<Seq<char>, Tree>::empty());
                let h = with_events(Map::<Seq<char>, Tree>::empty());
                assert(o.insert("hooks"@, Tree::Object(h)).insert("hooks"@, Tree::Object(h))
                    =~= o.insert("hooks"@, Tree::Object(h)));
            },
            Some(Tree::Object(g)) => {
                lemma_events_twice(g);
                let h = with_events(g);
                assert(o.insert("hooks"@, Tree::Object(h)).insert("hooks"@, Tree::Object(h))
                    =~= o.insert("hooks"@, Tree::Object(h)));
            },
            Some(_) => {},
        }
    }
}

proof fn lemma_kept_event(g: Map<Seq<char>, Tree>, ev: Event)
    requires
        ours(entry_tree(ev)),
    ensures
        kept_hooks(with_event(g, ev)) == kept_hooks(g),
{
    let w = with_event(g, ev);
    let name = ev.title();
    assert forall|k: Seq<char>| kept_hooks(w).dom().contains(k) == kept_hooks(g).dom().contains(
        k,
    ) by {
        lemma_kept_at(g, ev, k);
    }
    assert forall|k: Seq<char>| kept_hooks(w).dom().contains(k) implies #[trigger] kept_hooks(w)[k]
        == kept_hooks(g)[k] by {
        lemma_kept_at(g, ev, k);
    }
    assert(kept_hooks(w) =~= kept_hooks(g));
}

proof fn lemma_kept_at(g: Map<Seq<char>, Tree>, ev: Event, k: Seq<char>)
    requires
        ours(entry_tree(ev)),
    ensures
        kept_hooks(with_event(g, ev)).dom().contains(k) == kept_hooks(g).dom().contains(k),
        kept_hooks(g).dom().contains(k) ==> kept_hooks(with_event(g, ev))[k] == kept_hooks(g)[k],
{
    let name = ev.title();
    if k == name {
        if !g.dom().contains(name) {
            let list = seq![entry_tree(ev)];
            assert(list.drop_last() =~= Seq::empty());
            assert(others(list.drop_last()).len() == 0);
            assert(list.last() == entry_tree(ev));
            assert(others(list).len() == 0);
        } else if let Tree::List(list) = g[name] {
            let more = list.push(entry_tree(ev));
            assert(more.drop_last() =~= list);
            assert(others(more) == others(list));
        }
    }
}

proof fn lemma_kept_events(h: Map<Seq<char>, Tree>)
    requires
        recognized(),
    ensures
        kept_hooks(with_events(h)) == kept_hooks(h),
{
    let a = Event::PostToolUse;
    let b = Event::PreCompact;
    let c = Event::PreToolUse;
    let d = Event::SessionStart;
    let e = Event::UserPromptSubmit;
    assert(ours(entry_tree(a)) && ours(entry_tree(b)) && ours(entry_tree(c)) && ours(entry_tree(d))
        && ours(entry_tree(e)));
    let h1 = with_event(h, a);
    let h2 = with_event(h1, b);
    let h3 = with_event(h2, c);
    let h4 = with_event(h3, d);
    lemma_kept_event(h, a);
    lemma_kept_event(h1, b);
    lemma_kept_event(h2, c);
    lemma_kept_event(h3, d);
    lemma_kept_event(h4, e);
}

/// Taking the hooks out after adding them leaves what taking them out alone would leave:
/// installing leaves no residue.
pub proof fn lemma_strip_undoes_add(t: Tree)
    requires
        recognized(),
    ensures
        stripped(added(t)) == stripped(t),
{
    if let Tree::Object(o) = t {
        match field(t, "hooks"@) {
            None => {
                let none = Map::<Seq<char>, Tree>::empty();
                lemma_kept_events(none);
                let h = with_events(none);
                assert(kept_hooks(none) =~= none);
                assert(o.insert("hooks"@, Tree::Object(h)).remove("hooks"@) =~= o);
            },
            Some(Tree::Object(g)) => {
                lemma_kept_events(g);
                let h = with_events(g);
                let kept = kept_hooks(g);
                assert(o.insert("hooks"@, Tree::Object(h)).remove("hooks"@) =~= o.remove("hooks"@));
                assert(o.insert("hooks"@, Tree::Object(h)).insert("hooks"@, Tree::Object(kept))
                    =~= o.insert("hooks"@, Tree::Object(kept)));
            },
            Some(_) => {},
        }
    }
}

/// Settings without anything of TSK's stay as they are.
pub proof fn lemma_clean_kept(t: Tree)
    requires
        clean(t),
    ensures
        stripped(t) == t,
{
    let o = t->Object_0;
    if let Some(Tree::Object(h)) = field(t, "hooks"@) {
        let kept = kept_hooks(h);
        assert forall|k: Seq<char>| #[trigger] h.dom().contains(k) implies kept.dom().contains(k)
            && kept[k] == h[k] by {
            lemma_others_none(h[k]->List_0);
        }
        assert(kept =~= h);
        assert(o.insert("hooks"@, Tree::Object(kept)) =~= o);
    }
}

/// Taking the hooks out twice is taking them out once, and leaves none of TSK's entries.
pub proof fn lemma_strip_complete(t: Tree)
    ensures
        stripped(stripped(t)) == stripped(t),
        field(stripped(t), "hooks"@) matches Some(Tree::Object(h)) ==> forall|k: Seq<char>|
            #[trigger] h.dom().contains(k) && h[k] is List ==> !any_ours(h[k]->List_0),
{
    if let Tree::Object(o) = t {
        if let Some(Tree::Object(g)) = field(t, "hooks"@) {
            let kept = kept_hooks(g);
            assert forall|k: Seq<char>| #[trigger] kept.dom().contains(k) implies !any_ours(
                kept[k]->List_0,
            ) && others(kept[k]->List_0) == kept[k]->List_0 by {
                lemma_others_clean(g[k]->List_0);
                lemma_others_none(others(g[k]->List_0));
            }
            assert(kept_hooks(kept) =~= kept);
            if kept == Map::<Seq<char>, Tree>::empty() {
                assert(field(stripped(t), "hooks"@) is None);
            } else {
                let s = o.insert("hooks"@, Tree::Object(kept));
                assert(s.insert("hooks"@, Tree::Object(kept)) =~= s);
            }
        }
    }
}

/// How many of TSK's entries a slot holds.
pub open spec fn ours_in(slot: Tree) -> nat {
    match slot {
        Tree::List(list) => (list.len() - others(list).len()) as nat,
        _ => 0,
    }
}

/// How many of TSK's entries the hooks hold.
pub open spec fn removed_from(h: Map<Seq<char>, Tree>) -> nat
    decreases h.dom().len(),
    when h.dom().finite()
{
    if h.dom().len() == 0 {
        0
    } else {
        let k = h.dom().choose();
        ours_in(h[k]) + removed_from(h.remove(k))
    }
}

/// How many of TSK's entries the settings hold.
pub open spec fn removed(t: Tree) -> nat {
    match field(t, "hooks"@) {
        Some(Tree::Object(h)) => removed_from(h),
        _ => 0,
    }
}

proof fn lemma_removed_one(h: Map<Seq<char>, Tree>, k: Seq<char>)
    requires
        h.dom().finite(),
        h.dom().contains(k),
    ensures
        removed_from(h) == ours_in(h[k]) + removed_from(h.remove(k)),
    decreases h.dom().len(),
{
    let c = h.dom().choose();
    assert(h.dom().contains(c));
    if c != k {
        lemma_removed_one(h.remove(c), k);
        lemma_removed_one(h.remove(k), c);
        assert(h.remove(c).remove(k) =~= h.remove(k).remove(c));
    }
}

/// The entries that are not TSK's.
fn keep_others(list: Vec<Json>) -> (r: Vec<Json>)
    ensures
        trees(r@) == others(trees(list@)),
        r@.len() <= list@.len(),
        trees(r@).len() == r@.len(),
        trees(list@).len() == list@.len(),
{
    let ghost given = list@;
    let ghost all = trees(list@);
    proof {
        json::lemma_trees(given);
    }
    let mut out: Vec<Json> = Vec::new();
    for item in it: list
        invariant
            it.seq() == given,
            all == trees(given),
            all.len() == given.len(),
            forall|k: int| 0 <= k < all.len() ==> #[trigger] all[k] == given[k].tree(),
            out@.len() <= it.index(),
            trees(out@) == others(all.take(it.index() as int)),
    {
        proof {
            assert(all.take(it.index() + 1).drop_last() =~= all.take(it.index() as int));
            assert(all.take(it.index() + 1).last() == item.tree());
        }
        if !has_tsk_hook(&item) {
            let ghost done = out@;
            out.push(item);
            assert(out@.drop_last() =~= done);
        }
    }
    proof {
        assert(all.take(all.len() as int) =~= all);
        json::lemma_trees(out@);
    }
    out
}

proof fn lemma_kept_insert(m: Map<Seq<char>, Tree>, k: Seq<char>, t: Tree)
    requires
        !m.dom().contains(k),
    ensures
        kept_hooks(m.insert(k, t)) == (if t is List && others(t->List_0).len() > 0 {
            kept_hooks(m).insert(k, Tree::List(others(t->List_0)))
        } else {
            kept_hooks(m)
        }),
{
    let a = kept_hooks(m.insert(k, t));
    let b = if t is List && others(t->List_0).len() > 0 {
        kept_hooks(m).insert(k, Tree::List(others(t->List_0)))
    } else {
        kept_hooks(m)
    };
    assert(a =~= b);
}

/// The hooks without TSK's entries, and how many those were.
fn strip_members(members: Vec<(String, Json)>) -> (r: (Vec<(String, Json)>, u128))
    requires
        distinct(members@),
    ensures
        member_map(r.0@) == kept_hooks(member_map(members@)),
        r.1 == removed_from(member_map(members@)),
        r.0@.len() == 0 <==> kept_hooks(member_map(members@)) == Map::<Seq<char>, Tree>::empty(),
{
    let ghost all = members@;
    let count = members.len();
    let mut out: Vec<(String, Json)> = Vec::new();
    let mut n: u128 = 0;
    proof {
        assert(member_map(all.take(0)) =~= Map::<Seq<char>, Tree>::empty());
        assert(kept_hooks(member_map(all.take(0))) =~= member_map(out@));
    }
    for m in it: members
        invariant
            it.seq() == all,
            distinct(all),
            count == all.len(),
            n <= it.index() * usize::MAX,
            distinct(out@),
            member_map(out@) == kept_hooks(member_map(all.take(it.index() as int))),
            member_map(all.take(it.index() as int)).dom().finite(),
            n == removed_from(member_map(all.take(it.index() as int))),
    {
        let ghost i = it.index() as int;
        let ghost before = member_map(all.take(i));
        let ghost k = all[i].0@;
        let ghost t = all[i].1.tree();
        proof {
            assert(all.take(i + 1).drop_last() =~= all.take(i));
            assert(member_map(all.take(i + 1)) == before.insert(k, t));
            assert(distinct(all.take(i)));
            json::lemma_member_map(all.take(i));
            if before.dom().contains(k) {
                let x = choose|x: int|
                    0 <= x < all.take(i).len() && (#[trigger] all.take(i)[x]).0@ == k;
                assert(all[x].0@ != all[i].0@);
            }
            lemma_kept_insert(before, k, t);
            assert(before.insert(k, t).remove(k) =~= before);
            lemma_removed_one(before.insert(k, t), k);
            assert(i * usize::MAX + usize::MAX == (i + 1) * usize::MAX) by (nonlinear_arith);
            assert((i + 1) * usize::MAX <= 0xffff_ffff_ffff_ffff * 0xffff_ffff_ffff_ffff)
                by (nonlinear_arith)
                requires
                    0 <= i < count,
                    count <= usize::MAX,
                    usize::MAX <= 0xffff_ffff_ffff_ffff,
            ;
        }
        match m.1 {
            Json::List(list) => {
                let had = list.len();
                let rest = keep_others(list);
                n = n + (had - rest.len()) as u128;
                if rest.len() > 0 {
                    json::put(&mut out, m.0.as_str(), Json::List(rest));
                }
            },
            _ => {},
        }
    }
    proof {
        assert(all.take(all.len() as int) =~= all);
        json::lemma_member_map(out@);
        if out@.len() > 0 {
            assert(member_map(out@).dom().contains(out@[0].0@));
        } else {
            assert(member_map(out@) =~= Map::<Seq<char>, Tree>::empty());
        }
    }
    (out, n)
}

/// The settings without TSK's hook entries, and the number of entries removed.
pub fn strip_tsk_hooks(obj: &Json) -> (r: (Json, u128))
    ensures
        r.0.tree() == stripped(obj.tree()),
        r.1 == removed(obj.tree()),
{
    let top = match members_of(obj) {
        Some(members) => members,
        None => {
            return (obj.copy(), 0);
        },
    };
    let hooks = match obj.get("hooks") {
        None => {
            return (obj.copy(), 0);
        },
        Some(j) => match members_of(j) {
            None => {
                return (obj.copy(), 0);
            },
            Some(h) => h,
        },
    };
    let (kept, n) = strip_members(hooks);
    if kept.len() == 0 {
        (Json::Object(json::without(top, "hooks")), n)
    } else {
        let mut o = top;
        json::put(&mut o, "hooks", Json::Object(kept));
        (Json::Object(o), n)
    }
}

/// What merging did to the settings.
#[derive(Debug, Clone, Copy, PartialEq, Eq, Structural)]
pub enum Merge {
    /// The hooks are in.
    Wired,
    /// Entries of TSK's were taken out.
    Removed,
    /// There was nothing to take out.
    Kept,
}

/// The settings that a file holds; a file that is not there holds an empty object.
pub open spec fn settings_of(text: Option<Seq<char>>) -> Result<Tree, Seq<char>> {
    match text {
        Some(s) => json::parsed(s),
        None => Ok(Tree::Object(Map::<Seq<char>, Tree>::empty())),
    }
}

/// What merging comes to: the new text of the file and what was done, or why nothing is
/// written. A file that cannot be parsed is never overwritten.
pub open spec fn merged(
    text: Option<Seq<char>>,
    path: Seq<char>,
    add: bool,
) -> Result<(Seq<char>, Merge), Seq<char>> {
    match settings_of(text) {
        Err(e) => Err(path + " is not valid JSON, refusing to overwrite: "@ + e),
        Ok(t) => if add {
            Ok((json::rendered_pretty(added(t)), Merge::Wired))
        } else {
            Ok(
                (
                    json::rendered_pretty(stripped(t)),
                    if removed(t) > 0 {
                        Merge::Removed
                    } else {
                        Merge::Kept
                    },
                ),
            )
        },
    }
}

/// What a merge came to, with strings as texts.
pub open spec fn merge_outcome(r: Result<(String, Merge), String>) -> Result<
    (Seq<char>, Merge),
    Seq<char>,
> {
    match r {
        Ok((s, m)) => Ok((s@, m)),
        Err(e) => Err(e@),
    }
}

/// Merge (add) or strip (remove) TSK's hook entries. Refuses to overwrite settings that
/// it cannot parse. `text` is what the file at `path` holds, `None` where there is no file.
pub fn merge_hooks(text: Option<&str>, path: &str, add: bool) -> (r: Result<
    (String, Merge),
    String,
>)
    ensures
        merge_outcome(r) == merged(json::shown(text), path@, add),
{
    let obj = match text {
        Some(s) => match json::parse(s) {
            Ok(j) => j,
            Err(e) => {
                let mut m = text::copy(path);
                m.append(" is not valid JSON, refusing to overwrite: ");
                m.append(e.as_str());
                return Err(m);
            },
        },
        None => {
            let j = Json::Object(Vec::new());
            assert(j.tree() == Tree::Object(Map::<Seq<char>, Tree>::empty()));
            j
        },
    };
    if add {
        Ok((add_tsk_hooks(&obj).render_pretty(), Merge::Wired))
    } else {
        let (rest, n) = strip_tsk_hooks(&obj);
        Ok(
            (
                rest.render_pretty(),
                if n > 0 {
                    Merge::Removed
                } else {
                    Merge::Kept
                },
            ),
        )
    }
}

/// What stands under a key of the hooks.
pub open spec fn slot(h: Map<Seq<char>, Tree>, k: Seq<char>) -> Option<Tree> {
    if h.dom().contains(k) {
        Some(h[k])
    } else {
        None
    }
}

/// The hooks of the settings; none where there are none.
pub open spec fn hooks_in(t: Tree) -> Map<Seq<char>, Tree> {
    match field(t, "hooks"@) {
        Some(Tree::Object(h)) => h,
        _ => Map::<Seq<char>, Tree>::empty(),
    }
}

proof fn lemma_event_elsewhere(h: Map<Seq<char>, Tree>, ev: Event, k: Seq<char>)
    requires
        k != ev.title(),
    ensures
        slot(with_event(h, ev), k) == slot(h, k),
{
}

proof fn lemma_events_elsewhere(h: Map<Seq<char>, Tree>, k: Seq<char>)
    requires
        forall|ev: Event| k != #[trigger] ev.title(),
    ensures
        slot(with_events(h), k) == slot(h, k),
{
    let h1 = with_event(h, Event::PostToolUse);
    let h2 = with_event(h1, Event::PreCompact);
    let h3 = with_event(h2, Event::PreToolUse);
    let h4 = with_event(h3, Event::SessionStart);
    lemma_event_elsewhere(h, Event::PostToolUse, k);
    lemma_event_elsewhere(h1, Event::PreCompact, k);
    lemma_event_elsewhere(h2, Event::PreToolUse, k);
    lemma_event_elsewhere(h3, Event::SessionStart, k);
    lemma_event_elsewhere(h4, Event::UserPromptSubmit, k);
}

proof fn lemma_step(h: Map<Seq<char>, Tree>, other: Event, ev: Event)
    ensures
        other != ev ==> slot(with_event(h, other), ev.title()) == slot(h, ev.title()),
        other == ev ==> slot(with_event(h, other), ev.title()) == wired(
            slot(h, ev.title()),
            ev,
        ),
{
    crate::events::lemma_titles_distinct_all(other, ev);
    if other != ev {
        lemma_event_elsewhere(h, other, ev.title());
    }
}

spec fn wired(before: Option<Tree>, ev: Event) -> Option<Tree> {
    match before {
        None => Some(Tree::List(seq![entry_tree(ev)])),
        Some(Tree::List(list)) => if any_ours(list) {
            before
        } else {
            Some(Tree::List(list.push(entry_tree(ev))))
        },
        _ => before,
    }
}

proof fn lemma_events_wire(h: Map<Seq<char>, Tree>, ev: Event)
    ensures
        slot(with_events(h), ev.title()) == wired(slot(h, ev.title()), ev),
{
    let h1 = with_event(h, Event::PostToolUse);
    let h2 = with_event(h1, Event::PreCompact);
    let h3 = with_event(h2, Event::PreToolUse);
    let h4 = with_event(h3, Event::SessionStart);
    lemma_step(h, Event::PostToolUse, ev);
    lemma_step(h1, Event::PreCompact, ev);
    lemma_step(h2, Event::PreToolUse, ev);
    lemma_step(h3, Event::SessionStart, ev);
    lemma_step(h4, Event::UserPromptSubmit, ev);
}

/// Adding wires every event: where an event has no entry of TSK's it gets exactly one, behind
/// the entries that are there, which stay as they are; where it has one, nothing changes. What
/// stands under other keys, of the hooks and of the settings, is left alone.
pub proof fn lemma_all_wired(t: Tree, ev: Event, k: Seq<char>)
    requires
        t is Object,
        field(t, "hooks"@) is None || field(t, "hooks"@)->0 is Object,
    ensures
        slot(hooks_in(t), ev.title()) is None ==> slot(hooks_in(added(t)), ev.title()) == Some(
            Tree::List(seq![entry_tree(ev)]),
        ),
        slot(hooks_in(t), ev.title()) matches Some(Tree::List(list)) ==> {
            &&& any_ours(list) ==> slot(hooks_in(added(t)), ev.title()) == Some(Tree::List(list))
            &&& !any_ours(list) ==> slot(hooks_in(added(t)), ev.title()) == Some(
                Tree::List(list.push(entry_tree(ev))),
            )
        },
        (forall|e: Event| k != #[trigger] e.title()) ==> slot(hooks_in(added(t)), k) == slot(
            hooks_in(t),
            k,
        ),
        k != "hooks"@ ==> field(added(t), k) == field(t, k),
{
    let h = hooks_in(t);
    lemma_events_wire(h, ev);
    assert(hooks_in(added(t)) == with_events(h));
    if forall|e: Event| k != #[trigger] e.title() {
        lemma_events_elsewhere(h, k);
    }
}

/// An entry runs `tsk hook` with the name of its event, as a command; those round a tool are
/// for `Read` alone.
pub proof fn lemma_entry_runs(ev: Event)
    ensures
        field(entry_tree(ev), "hooks"@) matches Some(Tree::List(list)) && list.len() == 1 && field(
            list[0],
            "type"@,
        ) == Some(Tree::Text("command"@)) && field(list[0], "command"@) == Some(
            Tree::Text("tsk hook "@ + ev.title()),
        ),
        ev == Event::PreToolUse || ev == Event::PostToolUse ==> field(entry_tree(ev), "matcher"@)
            == Some(Tree::Text("Read"@)),
        ev != Event::PreToolUse && ev != Event::PostToolUse ==> field(entry_tree(ev), "matcher"@)
            is None,
{
    reveal_strlit("hooks");
    reveal_strlit("matcher");
    reveal_strlit("type");
    reveal_strlit("command");
    assert("hooks"@.len() != "matcher"@.len());
    assert("type"@.len() != "command"@.len());
    let list = seq![command_tree(ev)];
    assert(list[0] == command_tree(ev));
}

/// Entries that are not TSK's stay, in their order, and only those do.
pub proof fn lemma_others_in_turn(a: Seq<Tree>, b: Seq<Tree>)
    ensures
        others(a + b) == others(a) + others(b),
        b.len() == 1 && ours(b[0]) ==> others(b).len() == 0,
        b.len() == 1 && !ours(b[0]) ==> others(b) == b,
    decreases b.len(),
{
    if b.len() == 0 {
        assert(a + b =~= a);
        assert(others(a) + others(b) =~= others(a));
    } else {
        lemma_others_in_turn(a, b.drop_last());
        assert((a + b).drop_last() =~= a + b.drop_last());
        assert((a + b).last() == b.last());
        assert(others(a + b) =~= others(a) + others(b));
        if b.len() == 1 {
            assert(others(b.drop_last()) =~= Seq::empty());
            if !ours(b[0]) {
                assert(others(b) =~= b);
            }
        }
    }
}

proof fn lemma_other_stays(list: Seq<Tree>, i: int)
    requires
        0 <= i < list.len(),
        !ours(list[i]),
    ensures
        others(list).contains(list[i]),
    decreases list.len(),
{
    let front = list.drop_last();
    if i < front.len() {
        assert(front[i] == list[i]);
        lemma_other_stays(front, i);
        let j = others(front).index_of(list[i]);
        assert(others(list)[j] == list[i]);
    } else {
        assert(others(list)[others(front).len() as int] == list[i]);
    }
}

/// Taking the hooks out leaves everything else: the other settings, and under every event
/// each entry that is not TSK's.
pub proof fn lemma_strip_keeps(t: Tree, k: Seq<char>, list: Seq<Tree>, i: int)
    ensures
        k != "hooks"@ ==> field(stripped(t), k) == field(t, k),
        slot(hooks_in(t), k) == Some(Tree::List(list)) && 0 <= i < list.len() && !ours(list[i]) ==> {
            &&& slot(hooks_in(stripped(t)), k) == Some(Tree::List(others(list)))
            &&& others(list).contains(list[i])
        },
{
    if slot(hooks_in(t), k) == Some(Tree::List(list)) && 0 <= i < list.len() && !ours(list[i]) {
        lemma_other_stays(list, i);
        let h = hooks_in(t);
        let kept = kept_hooks(h);
        assert(others(list).len() > 0);
        assert(kept.dom().contains(k));
        assert(kept != Map::<Seq<char>, Tree>::empty());
    }
}

proof fn lemma_others_fewer(list: Seq<Tree>)
    ensures
        others(list).len() <= list.len(),
        others(list).len() < list.len() <==> any_ours(list),
    decreases list.len(),
{
    if list.len() > 0 {
        let front = list.drop_last();
        lemma_others_fewer(front);
        if any_ours(front) {
            let i = choose|i: int| 0 <= i < front.len() && ours(#[trigger] front[i]);
            assert(ours(list[i]));
        }
        if ours(list.last()) {
            assert(ours(list[list.len() - 1]));
        } else if any_ours(list) {
            let i = choose|i: int| 0 <= i < list.len() && ours(#[trigger] list[i]);
            assert(ours(front[i]));
        }
    }
}

/// Something is said to be taken out exactly where an entry of TSK's stands under some key.
pub proof fn lemma_removed_where_ours(h: Map<Seq<char>, Tree>)
    requires
        h.dom().finite(),
    ensures
        removed_from(h) > 0 <==> exists|k: Seq<char>| #[trigger]
            h.dom().contains(k) && h[k] is List && any_ours(h[k]->List_0),
    decreases h.dom().len(),
{
    if h.dom().len() > 0 {
        let c = h.dom().choose();
        assert(h.dom().contains(c));
        let g = h.remove(c);
        lemma_removed_where_ours(g);
        if h[c] is List {
            lemma_others_fewer(h[c]->List_0);
        }
        if removed_from(h) > 0 && ours_in(h[c]) == 0 {
            let k = choose|k: Seq<char>| #[trigger]
                g.dom().contains(k) && g[k] is List && any_ours(g[k]->List_0);
            assert(h.dom().contains(k) && h[k] == g[k]);
        }
        if exists|k: Seq<char>| #[trigger]
            h.dom().contains(k) && h[k] is List && any_ours(h[k]->List_0) {
            let k = choose|k: Seq<char>| #[trigger]
                h.dom().contains(k) && h[k] is List && any_ours(h[k]->List_0);
            if k != c {
                assert(g.dom().contains(k) && g[k] == h[k]);
            }
        }
    } else {
        assert forall|k: Seq<char>| !(#[trigger] h.dom().contains(k)) by {
            if h.dom().contains(k) {
                assert(h.dom().remove(k).len() == h.dom().len() - 1);
            }
        }
    }
}

/// Settings that are no JSON are never written over: the merge fails and names the file.
pub proof fn lemma_merge_refuses(text: Seq<char>, path: Seq<char>, add: bool, why: Seq<char>)
    requires
        json::parsed(text) == Err::<Tree, Seq<char>>(why),
    ensures
        merged(Some(text), path, add) matches Err(e) && text::begins(e, path) && holds(e, why),
{
    let e = path + " is not valid JSON, refusing to overwrite: "@ + why;
    assert(e.subrange(0, path.len() as int) =~= path);
    text::lemma_middle(path + " is not valid JSON, refusing to overwrite: "@, why, Seq::empty());
    assert(e + Seq::empty() =~= e);
}

/// A merge writes what the settings become, and says what was done: adding wires; taking out
/// says whether there was anything of TSK's. Without settings it starts from none.
pub proof fn lemma_merge_does(text: Option<Seq<char>>, path: Seq<char>, t: Tree)
    requires
        text is None ==> t == Tree::Object(Map::<Seq<char>, Tree>::empty()),
        text matches Some(s) ==> json::parsed(s) == Ok::<Tree, Seq<char>>(t),
        hooks_in(t).dom().finite(),
    ensures
        merged(text, path, true) == Ok::<(Seq<char>, Merge), Seq<char>>(
            (json::rendered_pretty(added(t)), Merge::Wired),
        ),
        merged(text, path, false) matches Ok((says, done)) && says == json::rendered_pretty(
            stripped(t),
        ) && (done == Merge::Removed <==> exists|k: Seq<char>| #[trigger]
            hooks_in(t).dom().contains(k) && hooks_in(t)[k] is List && any_ours(
                hooks_in(t)[k]->List_0,
            )) && (done == Merge::Removed || done == Merge::Kept),
{
    lemma_removed_where_ours(hooks_in(t));
    if removed(t) == 0 && field(t, "hooks"@) is Some && field(t, "hooks"@)->0 is Object {
        assert(removed_from(hooks_in(t)) == 0);
    }
}

} // verus!
