//! JSON documents.
//!
//! [`Json`] is the document that the rest of the library reads and builds; [`Tree`] is what
//! it means. Text is turned into documents and back by `serde_json`.

use vstd::prelude::*;

use crate::text;

verus! {

/// `serde_json::Value`, carried through and never looked into.
#[verifier::external_type_specification]
#[verifier::external_body]
pub struct ExValue(serde_json::Value);

/// `serde_json::Number`, carried through and never looked into.
#[verifier::external_type_specification]
#[verifier::external_body]
pub struct ExNumber(serde_json::Number);

/// What a JSON document says. A number stays as it was read. An object is a map: its members
/// have no order.
pub enum Tree {
    Null,
    Bool(bool),
    Number(serde_json::Number),
    Text(Seq<char>),
    List(Seq<Tree>),
    Object(Map<Seq<char>, Tree>),
}

/// A JSON document. Where an object names a key twice, the later member counts.
#[derive(Debug, PartialEq)]
pub enum Json {
    Null,
    Bool(bool),
    Number(serde_json::Number),
    Text(String),
    List(Vec<Json>),
    Object(Vec<(String, Json)>),
}

impl Json {
    /// What the document says.
    pub open spec fn tree(self) -> Tree
        decreases self,
    {
        match self {
            Json::Null => Tree::Null,
            Json::Bool(b) => Tree::Bool(b),
            Json::Number(n) => Tree::Number(n),
            Json::Text(s) => Tree::Text(s@),
            Json::List(items) => Tree::List(trees(items@)),
            Json::Object(members) => Tree::Object(member_map(members@)),
        }
    }
}

/// What the documents of a list say.
pub open spec fn trees(items: Seq<Json>) -> Seq<Tree>
    decreases items,
{
    if items.len() == 0 {
        Seq::empty()
    } else {
        trees(items.drop_last()).push(items.last().tree())
    }
}

/// What the members of an object say; a later member stands in place of an earlier one.
pub open spec fn member_map(members: Seq<(String, Json)>) -> Map<Seq<char>, Tree>
    decreases members,
{
    if members.len() == 0 {
        Map::empty()
    } else {
        member_map(members.drop_last()).insert(members.last().0@, members.last().1.tree())
    }
}

/// What a text is as JSON: the document, or the message that says why it is none.
pub uninterp spec fn parsed(text: Seq<char>) -> Result<Tree, Seq<char>>;

/// What a `serde_json::Value` holds.
pub uninterp spec fn tree_of(v: serde_json::Value) -> Tree;

/// A document as JSON text on one line.
pub uninterp spec fn rendered(t: Tree) -> Seq<char>;

/// A document as indented JSON text.
pub uninterp spec fn rendered_pretty(t: Tree) -> Seq<char>;

/// One level of a `serde_json::Value`: the value itself, or the values directly under it.
pub enum Node {
    Null,
    Bool(bool),
    Number(serde_json::Number),
    Text(String),
    List(Vec<serde_json::Value>),
    Object(Vec<(String, serde_json::Value)>),
}

/// The map that a list of keys and values spells; a later pair stands in place of an
/// earlier one with the same key.
pub open spec fn value_map(pairs: Seq<(String, serde_json::Value)>) -> Map<Seq<char>, Tree>
    decreases pairs.len(),
{
    if pairs.len() == 0 {
        Map::empty()
    } else {
        value_map(pairs.drop_last()).insert(pairs.last().0@, tree_of(pairs.last().1))
    }
}

/// No key stands twice.
pub open spec fn distinct<V>(pairs: Seq<(String, V)>) -> bool {
    forall|i: int, j: int|
        0 <= i < j < pairs.len() ==> (#[trigger] pairs[i]).0@ != (#[trigger] pairs[j]).0@
}

impl Node {
    /// What the node says.
    pub open spec fn tree(self) -> Tree {
        match self {
            Node::Null => Tree::Null,
            Node::Bool(b) => Tree::Bool(b),
            Node::Number(n) => Tree::Number(n),
            Node::Text(s) => Tree::Text(s@),
            Node::List(items) => Tree::List(items@.map_values(|v: serde_json::Value| tree_of(v))),
            Node::Object(pairs) => Tree::Object(value_map(pairs@)),
        }
    }
}

/// What a parse came to, over what the value holds and the message says.
pub open spec fn value_outcome(r: Result<serde_json::Value, String>) -> Result<Tree, Seq<char>> {
    match r {
        Ok(v) => Ok(tree_of(v)),
        Err(e) => Err(e@),
    }
}

/// `serde_json::from_str::<Value>`: the text as a value, or the message of the error. Both
/// depend on the text alone.
#[verifier::external_body]
fn parse_value(text: &str) -> (r: Result<serde_json::Value, String>)
    ensures
        value_outcome(r) == parsed(text@),
{
    serde_json::from_str(text).map_err(|e| e.to_string())
}

/// Tells the variants of `serde_json::Value` apart. The members of an object come with their
/// keys, each key once.
#[verifier::external_body]
fn open_value(v: serde_json::Value) -> (n: Node)
    ensures
        n.tree() == tree_of(v),
        n matches Node::Object(pairs) ==> distinct(pairs@),
{
    match v {
        serde_json::Value::Null => Node::Null,
        serde_json::Value::Bool(b) => Node::Bool(b),
        serde_json::Value::Number(n) => Node::Number(n),
        serde_json::Value::String(s) => Node::Text(s),
        serde_json::Value::Array(a) => Node::List(a),
        serde_json::Value::Object(m) => Node::Object(m.into_iter().collect()),
    }
}

/// Builds the `serde_json::Value` variant that the node names. The members of an object are
/// collected into a `serde_json::Map`, which keeps each under its key.
#[verifier::external_body]
fn close_value(n: Node) -> (v: serde_json::Value)
    requires
        n matches Node::Object(pairs) ==> distinct(pairs@),
    ensures
        tree_of(v) == n.tree(),
{
    match n {
        Node::Null => serde_json::Value::Null,
        Node::Bool(b) => serde_json::Value::Bool(b),
        Node::Number(n) => serde_json::Value::Number(n),
        Node::Text(s) => serde_json::Value::String(s),
        Node::List(a) => serde_json::Value::Array(a),
        Node::Object(m) => serde_json::Value::Object(m.into_iter().collect()),
    }
}

/// Does every character of `s` stand for itself inside a JSON string? Quotation marks,
/// backslashes and control characters do not.
pub open spec fn plain(s: Seq<char>) -> bool {
    forall|i: int| 0 <= i < s.len() ==> #[trigger] s[i] != '"' && s[i] != '\\' && s[i] as u32 >= 0x20
}

/// Does `s` show `t` part by part? A text without characters to escape stands in it between
/// quotation marks; a list or an object holds the text of each thing in it.
pub open spec fn shows(s: Seq<char>, t: Tree) -> bool {
    match t {
        Tree::Text(x) => plain(x) ==> s == seq!['"'] + x + seq!['"'],
        Tree::List(items) => forall|i: int|
            0 <= i < items.len() ==> text::holds(s, rendered(#[trigger] items[i])),
        Tree::Object(m) => forall|k: Seq<char>| #[trigger]
            m.dom().contains(k) ==> text::holds(s, rendered(m[k])),
        _ => true,
    }
}

/// `serde_json::to_string`: the value as JSON text on one line. Writing a value into memory
/// does not fail. A text without characters to escape is written between quotation marks as
/// it is, and a list or an object with the text of each thing in it.
#[verifier::external_body]
fn write_value(v: &serde_json::Value) -> (r: String)
    ensures
        r@ == rendered(tree_of(*v)),
        shows(r@, tree_of(*v)),
{
    serde_json::to_string(v).unwrap_or_default()
}

/// `serde_json::to_string_pretty`: the value as indented JSON text. Writing a value into
/// memory does not fail.
#[verifier::external_body]
fn write_value_pretty(v: &serde_json::Value) -> (r: String)
    ensures
        r@ == rendered_pretty(tree_of(*v)),
{
    serde_json::to_string_pretty(v).unwrap_or_default()
}

/// A number as a `u64`, where it is a whole number that fits.
pub uninterp spec fn unsigned_of(n: serde_json::Number) -> Option<u64>;

/// `serde_json::Number::as_u64`: the number as a `u64`, where it is a whole number that fits.
#[verifier::external_body]
fn unsigned(n: &serde_json::Number) -> (r: Option<u64>)
    ensures
        r == unsigned_of(*n),
{
    n.as_u64()
}

/// `serde_json::Number::clone`: the same number again.
#[verifier::external_body]
fn copy_number(n: &serde_json::Number) -> (r: serde_json::Number)
    ensures
        r == *n,
{
    n.clone()
}

/// The documents of a list keep their number and their places.
pub proof fn lemma_trees(items: Seq<Json>)
    ensures
        trees(items).len() == items.len(),
        forall|i: int| 0 <= i < items.len() ==> #[trigger] trees(items)[i] == items[i].tree(),
    decreases items.len(),
{
    if items.len() > 0 {
        lemma_trees(items.drop_last());
    }
}

proof fn lemma_value_map(pairs: Seq<(String, serde_json::Value)>)
    requires
        distinct(pairs),
    ensures
        value_map(pairs).dom().finite(),
        forall|i: int|
            0 <= i < pairs.len() ==> value_map(pairs).dom().contains((#[trigger] pairs[i]).0@)
                && value_map(pairs)[pairs[i].0@] == tree_of(pairs[i].1),
        forall|k: Seq<char>| #[trigger]
            value_map(pairs).dom().contains(k) ==> exists|i: int|
                0 <= i < pairs.len() && (#[trigger] pairs[i]).0@ == k,
    decreases pairs.len(),
{
    if pairs.len() > 0 {
        let before = pairs.drop_last();
        lemma_value_map(before);
        assert forall|k: Seq<char>| #[trigger]
            value_map(pairs).dom().contains(k) implies exists|i: int|
            0 <= i < pairs.len() && (#[trigger] pairs[i]).0@ == k by {
            if k == pairs.last().0@ {
                assert(pairs[pairs.len() - 1].0@ == k);
            } else {
                assert(value_map(before).dom().contains(k));
                let i = choose|i: int| 0 <= i < before.len() && (#[trigger] before[i]).0@ == k;
                assert(pairs[i] == before[i]);
            }
        }
        assert forall|i: int| 0 <= i < pairs.len() implies value_map(pairs).dom().contains(
            (#[trigger] pairs[i]).0@,
        ) && value_map(pairs)[pairs[i].0@] == tree_of(pairs[i].1) by {
            if i < pairs.len() - 1 {
                assert(pairs.drop_last()[i] == pairs[i]);
                assert(pairs[i].0@ != pairs[pairs.len() - 1].0@);
            }
        }
    }
}

/// The document that a value holds.
fn from_value(v: serde_json::Value) -> (j: Json)
    ensures
        j.tree() == tree_of(v),
    decreases tree_of(v),
{
    let ghost whole = tree_of(v);
    match open_value(v) {
        Node::Null => Json::Null,
        Node::Bool(b) => Json::Bool(b),
        Node::Number(n) => Json::Number(n),
        Node::Text(s) => Json::Text(s),
        Node::List(items) => {
            let ghost all = items@;
            let mut out: Vec<Json> = Vec::new();
            for item in it: items
                invariant
                    it.seq() == all,
                    whole == tree_of(v),
                    whole == Tree::List(all.map_values(|v: serde_json::Value| tree_of(v))),
                    trees(out@) =~= all.map_values(|v: serde_json::Value| tree_of(v)).take(it.index() as int),
            {
                proof {
                    let ts = all.map_values(|v: serde_json::Value| tree_of(v));
                    assert(ts[it.index() as int] == tree_of(item));
                    assert(decreases_to!(whole => whole->List_0));
                    assert(decreases_to!(ts => ts[it.index() as int]));
                }
                let ghost done = out@;
                out.push(from_value(item));
                assert(out@.drop_last() =~= done);
            }
            assert(trees(out@) =~= whole->List_0);
            Json::List(out)
        },
        Node::Object(pairs) => {
            let ghost all = pairs@;
            let mut out: Vec<(String, Json)> = Vec::new();
            proof { lemma_value_map(all); }
            for pair in it: pairs
                invariant
                    it.seq() == all,
                    whole == tree_of(v),
                    whole == Tree::Object(value_map(all)),
                    distinct(all),
                    member_map(out@) =~= value_map(all.take(it.index() as int)),
            {
                proof {
                    lemma_value_map(all);
                    let m = value_map(all);
                    let k = all[it.index() as int].0@;
                    assert(decreases_to!(whole => whole->Object_0));
                    assert(decreases_to!(m => m[k]));
                    assert(all.take(it.index() + 1).drop_last() =~= all.take(it.index() as int));
                }
                let ghost done = out@;
                out.push((pair.0, from_value(pair.1)));
                assert(out@.drop_last() =~= done);
            }
            assert(all.take(all.len() as int) =~= all);
            Json::Object(out)
        },
    }
}

proof fn lemma_keys(members: Seq<(String, Json)>)
    ensures
        member_map(members).dom().finite(),
        forall|i: int|
            0 <= i < members.len() ==> member_map(members).dom().contains(
                (#[trigger] members[i]).0@,
            ),
        forall|k: Seq<char>| #[trigger]
            member_map(members).dom().contains(k) ==> exists|i: int|
                0 <= i < members.len() && (#[trigger] members[i]).0@ == k,
    decreases members.len(),
{
    if members.len() > 0 {
        let before = members.drop_last();
        lemma_keys(before);
        assert forall|i: int| 0 <= i < members.len() implies member_map(members).dom().contains(
            (#[trigger] members[i]).0@,
        ) by {
            if i < before.len() {
                assert(before[i] == members[i]);
            }
        }
        assert forall|k: Seq<char>| #[trigger]
            member_map(members).dom().contains(k) implies exists|i: int|
            0 <= i < members.len() && (#[trigger] members[i]).0@ == k by {
            if k == members.last().0@ {
                assert(members[members.len() - 1].0@ == k);
            } else {
                assert(member_map(before).dom().contains(k));
                let i = choose|i: int| 0 <= i < before.len() && (#[trigger] before[i]).0@ == k;
                assert(members[i] == before[i]);
            }
        }
    }
}

fn is_key(pairs: &Vec<(String, serde_json::Value)>, key: &str) -> (b: bool)
    ensures
        b == exists|i: int| 0 <= i < pairs@.len() && (#[trigger] pairs@[i]).0@ == key@,
{
    let mut i: usize = 0;
    while i < pairs.len()
        invariant
            i <= pairs@.len(),
            forall|k: int| 0 <= k < i ==> (#[trigger] pairs@[k]).0@ != key@,
        decreases pairs@.len() - i,
    {
        if text::same(pairs[i].0.as_str(), key) {
            return true;
        }
        i = i + 1;
    }
    false
}

/// The value that holds what a document says.
fn to_value(j: &Json) -> (v: serde_json::Value)
    ensures
        tree_of(v) == j.tree(),
    decreases j.tree(),
{
    let ghost whole = j.tree();
    match j {
        Json::Null => close_value(Node::Null),
        Json::Bool(b) => close_value(Node::Bool(*b)),
        Json::Number(n) => close_value(Node::Number(copy_number(n))),
        Json::Text(s) => close_value(Node::Text(text::copy(s.as_str()))),
        Json::List(items) => {
            let mut out: Vec<serde_json::Value> = Vec::new();
            let ghost all = trees(items@);
            proof {
                lemma_trees(items@);
            }
            let mut i: usize = 0;
            while i < items.len()
                invariant
                    i <= items@.len(),
                    whole == j.tree(),
                    whole == Tree::List(all),
                    all.len() == items@.len(),
                    forall|k: int| 0 <= k < all.len() ==> #[trigger] all[k] == items@[k].tree(),
                    out@.map_values(|v: serde_json::Value| tree_of(v)) =~= all.take(i as int),
                decreases items@.len() - i,
            {
                proof {
                    assert(all[i as int] == items@[i as int].tree());
                    assert(decreases_to!(whole => whole->List_0));
                    assert(decreases_to!(all => all[i as int]));
                }
                let ghost done = out@.map_values(|v: serde_json::Value| tree_of(v));
                out.push(to_value(&items[i]));
                assert(out@.map_values(|v: serde_json::Value| tree_of(v)) =~= done.push(
                    all[i as int],
                ));
                assert(all.take(i + 1) =~= all.take(i as int).push(all[i as int]));
                i = i + 1;
            }
            assert(all.take(i as int) =~= all);
            close_value(Node::List(out))
        },
        Json::Object(members) => {
            let mut out: Vec<(String, serde_json::Value)> = Vec::new();
            let ghost all = member_map(members@);
            let mut i: usize = 0;
            while i < members.len()
                invariant
                    i <= members@.len(),
                    whole == j.tree(),
                    whole == Tree::Object(all),
                    all == member_map(members@),
                    distinct(out@),
                    forall|k: int|
                        0 <= k < out@.len() ==> all.dom().contains((#[trigger] out@[k]).0@)
                            && tree_of(out@[k].1) == all[out@[k].0@],
                    forall|m: int|
                        0 <= m < i ==> exists|k: int|
                            0 <= k < out@.len() && (#[trigger] out@[k]).0@ == (
                            #[trigger] members@[m]).0@,
                decreases members@.len() - i,
            {
                let key = members[i].0.as_str();
                proof {
                    lemma_keys(members@);
                    assert(all.dom().contains(members@[i as int].0@));
                    assert(decreases_to!(whole => whole->Object_0));
                    assert(decreases_to!(all => all[key@]));
                }
                if !is_key(&out, key) {
                    if let Some(value) = find(members, key) {
                        let ghost done = out@;
                        out.push((text::copy(key), to_value(value)));
                        proof {
                            assert(out@[done.len() as int].0@ == key@);
                            assert forall|m: int| 0 <= m < i + 1 implies exists|k: int|
                                0 <= k < out@.len() && (#[trigger] out@[k]).0@ == (
                                #[trigger] members@[m]).0@ by {
                                if m < i {
                                    let k = choose|k: int|
                                        0 <= k < done.len() && (#[trigger] done[k]).0@
                                            == members@[m].0@;
                                    assert(out@[k] == done[k]);
                                }
                            }
                        }
                    }
                }
                i = i + 1;
            }
            proof {
                lemma_value_map(out@);
                lemma_keys(members@);
                let m = value_map(out@);
                assert forall|k: Seq<char>| #[trigger] m.dom().contains(k) == all.dom().contains(k) by {
                    if m.dom().contains(k) {
                        let x = choose|x: int| 0 <= x < out@.len() && (#[trigger] out@[x]).0@ == k;
                        assert(all.dom().contains(out@[x].0@));
                    }
                    if all.dom().contains(k) {
                        let y = choose|y: int|
                            0 <= y < members@.len() && (#[trigger] members@[y]).0@ == k;
                        let x = choose|x: int|
                            0 <= x < out@.len() && (#[trigger] out@[x]).0@ == members@[y].0@;
                        assert(m.dom().contains(out@[x].0@));
                    }
                }
                assert forall|k: Seq<char>| m.dom().contains(k) implies #[trigger] m[k] == all[k] by {
                    let x = choose|x: int| 0 <= x < out@.len() && (#[trigger] out@[x]).0@ == k;
                    assert(tree_of(out@[x].1) == all[out@[x].0@]);
                }
                assert(m =~= all);
            }
            close_value(Node::Object(out))
        },
    }
}

/// What a parse came to, over what the document and the message say.
pub open spec fn outcome(r: Result<Json, String>) -> Result<Tree, Seq<char>> {
    match r {
        Ok(j) => Ok(j.tree()),
        Err(e) => Err(e@),
    }
}

/// The document that `s` spells, or the message that says why it spells none.
pub fn parse(s: &str) -> (r: Result<Json, String>)
    ensures
        outcome(r) == parsed(s@),
{
    match parse_value(s) {
        Ok(v) => Ok(from_value(v)),
        Err(e) => Err(e),
    }
}

/// The member of `t` under `key`, where `t` is an object that has one.
pub open spec fn field(t: Tree, key: Seq<char>) -> Option<Tree> {
    match t {
        Tree::Object(m) => if m.dom().contains(key) {
            Some(m[key])
        } else {
            None
        },
        _ => None,
    }
}

/// The text that `t` is, where it is one.
pub open spec fn string(t: Option<Tree>) -> Option<Seq<char>> {
    match t {
        Some(Tree::Text(s)) => Some(s),
        _ => None,
    }
}

/// The member of the object under `outer`, one level down.
pub open spec fn inner(t: Tree, outer: Seq<char>, key: Seq<char>) -> Option<Tree> {
    match field(t, outer) {
        Some(u) => field(u, key),
        None => None,
    }
}

/// The number that `t` is, where it is one that fits `u64`, else 0.
pub open spec fn number_or_zero(t: Option<Tree>) -> u64 {
    match t {
        Some(Tree::Number(n)) => match unsigned_of(n) {
            Some(u) => u,
            None => 0,
        },
        _ => 0,
    }
}

/// The items that `t` lists, none where it is no list.
pub open spec fn items_of(t: Option<Tree>) -> Seq<Tree> {
    match t {
        Some(Tree::List(items)) => items,
        _ => Seq::empty(),
    }
}

/// What an optional document says.
pub open spec fn said(j: Option<&Json>) -> Option<Tree> {
    match j {
        Some(d) => Some(d.tree()),
        None => None,
    }
}

/// What an optional text holds.
pub open spec fn shown(s: Option<&str>) -> Option<Seq<char>> {
    match s {
        Some(t) => Some(t@),
        None => None,
    }
}

/// The member under `key`.
pub fn find<'a>(members: &'a Vec<(String, Json)>, key: &str) -> (r: Option<&'a Json>)
    ensures
        said(r) == field(Tree::Object(member_map(members@)), key@),
{
    let mut i: usize = members.len();
    assert(members@.take(i as int) =~= members@);
    while i > 0
        invariant
            i <= members@.len(),
            field(Tree::Object(member_map(members@.take(i as int))), key@) == field(
                Tree::Object(member_map(members@)),
                key@,
            ),
        decreases i,
    {
        i = i - 1;
        assert(members@.take(i + 1).drop_last() =~= members@.take(i as int));
        if text::same(members[i].0.as_str(), key) {
            return Some(&members[i].1);
        }
    }
    assert(members@.take(0) =~= Seq::empty());
    None
}

impl Json {
    /// The document as JSON text on one line, which shows each part of it.
    pub fn render(&self) -> (r: String)
        ensures
            r@ == rendered(self.tree()),
            shows(r@, self.tree()),
    {
        write_value(&to_value(self))
    }

    /// The document as indented JSON text.
    pub fn render_pretty(&self) -> (r: String)
        ensures
            r@ == rendered_pretty(self.tree()),
    {
        write_value_pretty(&to_value(self))
    }

    /// The same document again.
    pub fn copy(&self) -> (r: Json)
        ensures
            r.tree() == self.tree(),
    {
        from_value(to_value(self))
    }

    /// The member under `key`, where the document is an object that has one.
    pub fn get(&self, key: &str) -> (r: Option<&Json>)
        ensures
            said(r) == field(self.tree(), key@),
    {
        match self {
            Json::Object(members) => find(members, key),
            _ => None,
        }
    }

    /// The member under `key` of the object under `outer`.
    pub fn get_inner(&self, outer: &str, key: &str) -> (r: Option<&Json>)
        ensures
            said(r) == inner(self.tree(), outer@, key@),
    {
        match self.get(outer) {
            Some(j) => j.get(key),
            None => None,
        }
    }
}

/// The text that the document is, where it is one.
pub fn as_text(j: Option<&Json>) -> (r: Option<&str>)
    ensures
        shown(r) == string(said(j)),
{
    match j {
        Some(Json::Text(s)) => Some(s.as_str()),
        _ => None,
    }
}

/// The number that the document is, where it fits `u64`, else 0.
pub fn as_number(j: Option<&Json>) -> (n: u64)
    ensures
        n == number_or_zero(said(j)),
{
    match j {
        Some(Json::Number(n)) => match unsigned(n) {
            Some(u) => u,
            None => 0,
        },
        _ => 0,
    }
}

/// Is the document the text `s`?
pub fn is_text(j: Option<&Json>, s: &str) -> (b: bool)
    ensures
        b == (string(said(j)) == Some(s@)),
{
    match as_text(j) {
        Some(t) => text::same(t, s),
        None => false,
    }
}

/// Members with distinct keys, as a map.
pub proof fn lemma_member_map(members: Seq<(String, Json)>)
    requires
        distinct(members),
    ensures
        member_map(members).dom().finite(),
        forall|i: int|
            0 <= i < members.len() ==> member_map(members).dom().contains(
                (#[trigger] members[i]).0@,
            ) && member_map(members)[members[i].0@] == members[i].1.tree(),
        forall|k: Seq<char>| #[trigger]
            member_map(members).dom().contains(k) ==> exists|i: int|
                0 <= i < members.len() && (#[trigger] members[i]).0@ == k,
    decreases members.len(),
{
    if members.len() > 0 {
        let before = members.drop_last();
        lemma_member_map(before);
        assert forall|i: int| 0 <= i < members.len() implies member_map(members).dom().contains(
            (#[trigger] members[i]).0@,
        ) && member_map(members)[members[i].0@] == members[i].1.tree() by {
            if i < members.len() - 1 {
                assert(before[i] == members[i]);
                assert(members[i].0@ != members[members.len() - 1].0@);
            }
        }
        assert forall|k: Seq<char>| #[trigger]
            member_map(members).dom().contains(k) implies exists|i: int|
            0 <= i < members.len() && (#[trigger] members[i]).0@ == k by {
            if k == members.last().0@ {
                assert(members[members.len() - 1].0@ == k);
            } else {
                assert(member_map(before).dom().contains(k));
                let i = choose|i: int| 0 <= i < before.len() && (#[trigger] before[i]).0@ == k;
                assert(members[i] == before[i]);
            }
        }
    }
}

/// Puts `value` under `key`, in place of what stood there.
pub fn put(members: &mut Vec<(String, Json)>, key: &str, value: Json)
    requires
        distinct(old(members)@),
    ensures
        distinct(final(members)@),
        member_map(final(members)@) == member_map(old(members)@).insert(key@, value.tree()),
{
    let ghost before = members@;
    proof { lemma_member_map(before); }
    let mut i: usize = 0;
    while i < members.len()
        invariant
            i <= members@.len(),
            members@ == before,
            before == old(members)@,
            distinct(before),
            forall|k: int| 0 <= k < i ==> (#[trigger] before[k]).0@ != key@,
        decreases members@.len() - i,
    {
        if text::same(members[i].0.as_str(), key) {
            let pair = (text::copy(key), value);
            members.set(i, pair);
            proof {
                lemma_member_map(before);
                assert(members@ =~= before.update(i as int, pair));
                assert(distinct(members@));
                lemma_member_map(members@);
                let m = member_map(members@);
                let goal = member_map(before).insert(key@, pair.1.tree());
                assert(members@[i as int].0@ == key@);
                assert forall|k: Seq<char>| m.dom().contains(k) == goal.dom().contains(k) by {
                    if m.dom().contains(k) {
                        let x = choose|x: int| 0 <= x < members@.len() && (#[trigger] members@[x]).0@ == k;
                        assert(before[x].0@ == k);
                    }
                    if goal.dom().contains(k) && k != key@ {
                        let x = choose|x: int| 0 <= x < before.len() && (#[trigger] before[x]).0@ == k;
                        assert(members@[x].0@ == k);
                    }
                }
                assert forall|k: Seq<char>| m.dom().contains(k) implies #[trigger] m[k] == goal[k] by {
                    let x = choose|x: int| 0 <= x < members@.len() && (#[trigger] members@[x]).0@ == k;
                    assert(before[x].0@ == k);
                }
                assert(m =~= goal);
            }
            return;
        }
        i = i + 1;
    }
    members.push((text::copy(key), value));
    assert(members@.drop_last() =~= before);
}

/// The members with each key once.
pub fn settled(members: Vec<(String, Json)>) -> (r: Vec<(String, Json)>)
    ensures
        distinct(r@),
        member_map(r@) == member_map(members@),
{
    let ghost all = members@;
    let mut out: Vec<(String, Json)> = Vec::new();
    for m in it: members
        invariant
            it.seq() == all,
            distinct(out@),
            member_map(out@) == member_map(all.take(it.index() as int)),
    {
        assert(all.take(it.index() + 1).drop_last() =~= all.take(it.index() as int));
        put(&mut out, m.0.as_str(), m.1);
    }
    assert(all.take(all.len() as int) =~= all);
    out
}

/// A text as a JSON string.
pub open spec fn quoted(s: Seq<char>) -> Seq<char> {
    rendered(Tree::Text(s))
}

/// A text as a JSON string; one that needs no escaping stands between quotation marks.
pub fn quote(s: &str) -> (r: String)
    ensures
        r@ == quoted(s@),
        plain(s@) ==> r@ == seq!['"'] + s@ + seq!['"'],
{
    Json::Text(text::copy(s)).render()
}

/// The members without those under `key`.
pub fn without(members: Vec<(String, Json)>, key: &str) -> (r: Vec<(String, Json)>)
    ensures
        member_map(r@) == member_map(members@).remove(key@),
{
    let ghost all = members@;
    let mut out: Vec<(String, Json)> = Vec::new();
    assert(member_map(out@) =~= member_map(all.take(0)).remove(key@));
    for m in it: members
        invariant
            it.seq() == all,
            member_map(out@) == member_map(all.take(it.index() as int)).remove(key@),
    {
        let ghost before = member_map(all.take(it.index() as int));
        assert(all.take(it.index() + 1).drop_last() =~= all.take(it.index() as int));
        if text::same(m.0.as_str(), key) {
            assert(before.insert(key@, m.1.tree()).remove(key@) =~= before.remove(key@));
        } else {
            let ghost done = out@;
            assert(before.remove(key@).insert(m.0@, m.1.tree()) =~= before.insert(
                m.0@,
                m.1.tree(),
            ).remove(key@));
            out.push(m);
            assert(out@.drop_last() =~= done);
        }
    }
    assert(all.take(all.len() as int) =~= all);
    out
}

} // verus!
