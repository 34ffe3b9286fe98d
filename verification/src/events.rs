//! Hook protocol: the JSON the agent sends, the JSON we answer.

use vstd::prelude::*;

use crate::json;
use crate::json::{Json, Tree};
use crate::path;
use crate::path::portable_of;
use crate::text;

verus! {

/// The hook events that TSK answers.
#[derive(Debug, Clone, Copy, PartialEq, Eq, Structural)]
pub enum Event {
    PreToolUse,
    PostToolUse,
    SessionStart,
    UserPromptSubmit,
    PreCompact,
}

impl Event {
    /// The name under which the agent announces the event.
    pub open spec fn title(self) -> Seq<char> {
        match self {
            Event::PreToolUse => "PreToolUse"@,
            Event::PostToolUse => "PostToolUse"@,
            Event::SessionStart => "SessionStart"@,
            Event::UserPromptSubmit => "UserPromptSubmit"@,
            Event::PreCompact => "PreCompact"@,
        }
    }

    /// The event that `s` names, if it names one.
    pub fn parse(s: &str) -> (r: Option<Event>)
        ensures
            r matches Some(e) ==> s@ == e.title(),
            r is None ==> forall|e: Event| s@ != #[trigger] e.title(),
    {
        if text::same(s, "PreToolUse") {
            Some(Event::PreToolUse)
        } else if text::same(s, "PostToolUse") {
            Some(Event::PostToolUse)
        } else if text::same(s, "SessionStart") {
            Some(Event::SessionStart)
        } else if text::same(s, "UserPromptSubmit") {
            Some(Event::UserPromptSubmit)
        } else if text::same(s, "PreCompact") {
            Some(Event::PreCompact)
        } else {
            None
        }
    }

    /// The name under which the agent announces the event.
    pub fn name(&self) -> (r: &'static str)
        ensures
            r@ == self.title(),
    {
        match self {
            Event::PreToolUse => "PreToolUse",
            Event::PostToolUse => "PostToolUse",
            Event::SessionStart => "SessionStart",
            Event::UserPromptSubmit => "UserPromptSubmit",
            Event::PreCompact => "PreCompact",
        }
    }
}

/// No two events share a name, so a name determines its event.
pub proof fn lemma_titles_distinct(a: Event, b: Event)
    requires
        a.title() == b.title(),
    ensures
        a == b,
{
    reveal_strlit("PreToolUse");
    reveal_strlit("PostToolUse");
    reveal_strlit("SessionStart");
    reveal_strlit("UserPromptSubmit");
    reveal_strlit("PreCompact");
    assert("PreToolUse"@[3] == 'T');
    assert("PreCompact"@[3] == 'C');
    assert("PreToolUse"@.len() == 10 && "PostToolUse"@.len() == 11 && "SessionStart"@.len() == 12
        && "UserPromptSubmit"@.len() == 16 && "PreCompact"@.len() == 10);
}

/// Everything an event may carry. Only the fields each event actually uses are set;
/// the rest are `None`.
#[derive(Debug, PartialEq)]
pub struct HookEvent {
    pub session_id: String,
    pub cwd: String,
    pub transcript_path: Option<String>,
    pub tool_name: Option<String>,
    pub tool_input: Json,
    pub tool_use_id: Option<String>,
    /// SessionStart only: `startup` | `clear` | `compact` | `resume`.
    pub source: Option<String>,
    /// UserPromptSubmit only: the user's message text.
    pub prompt: Option<String>,
    /// PreCompact only: `manual` | `auto`.
    pub trigger: Option<String>,
}

/// A tool call with the file it names in portable form.
pub open spec fn portable_input(tool_input: Tree, windows: bool) -> Tree {
    match (tool_input, json::string(json::field(tool_input, "file_path"@))) {
        (Tree::Object(m), Some(p)) => Tree::Object(
            m.insert("file_path"@, Tree::Text(portable_of(p, windows))),
        ),
        _ => tool_input,
    }
}

impl HookEvent {
    /// The event with the project and the file in portable form, which every decision about
    /// them expects.
    pub fn portable(self, windows: bool) -> (r: HookEvent)
        ensures
            r.cwd@ == portable_of(self.cwd@, windows),
            r.tool_input.tree() == portable_input(self.tool_input.tree(), windows),
            r.session_id == self.session_id,
            r.transcript_path == self.transcript_path,
            r.tool_name == self.tool_name,
            r.tool_use_id == self.tool_use_id,
            r.source == self.source,
            r.prompt == self.prompt,
            r.trigger == self.trigger,
    {
        let file = match json::as_text(self.tool_input.get("file_path")) {
            Some(p) => Some(path::portable(p, windows)),
            None => None,
        };
        let tool_input = match (self.tool_input, file) {
            (Json::Object(members), Some(p)) => {
                let mut m = json::settled(members);
                json::put(&mut m, "file_path", Json::Text(p));
                Json::Object(m)
            },
            (other, _) => other,
        };
        HookEvent {
            session_id: self.session_id,
            cwd: path::portable(self.cwd.as_str(), windows),
            transcript_path: self.transcript_path,
            tool_name: self.tool_name,
            tool_input,
            tool_use_id: self.tool_use_id,
            source: self.source,
            prompt: self.prompt,
            trigger: self.trigger,
        }
    }
}

/// The stdout contract. Stdout is written last, and is always complete valid JSON.
#[derive(Debug, PartialEq)]
pub enum Output {
    /// No decision to communicate, and the universal failure shape, too.
    Passthrough,
    /// A rewritten `tool_input` for the upcoming tool call.
    UpdatedInput(Json),
    /// Extra context appended to the agent's context window.
    Context(Event, String),
}

/// What an answer says, with documents as trees and strings as texts.
pub enum Reply {
    Passthrough,
    UpdatedInput(Tree),
    Context(Event, Seq<char>),
}

/// `{"hookSpecificOutput":{"hookEventName":..., key: value}}`.
pub open spec fn specific_tree(event: Seq<char>, key: Seq<char>, value: Tree) -> Tree {
    Tree::Object(
        Map::<Seq<char>, Tree>::empty().insert(
            "hookSpecificOutput"@,
            Tree::Object(
                Map::<Seq<char>, Tree>::empty().insert("hookEventName"@, Tree::Text(event)).insert(
                    key,
                    value,
                ),
            ),
        ),
    )
}

/// The document that answers the hook.
pub open spec fn answer(reply: Reply) -> Tree {
    match reply {
        Reply::Passthrough => Tree::Object(Map::<Seq<char>, Tree>::empty()),
        Reply::UpdatedInput(input) => specific_tree(
            Event::PreToolUse.title(),
            "updatedInput"@,
            input,
        ),
        Reply::Context(ev, ctx) => specific_tree(
            ev.title(),
            "additionalContext"@,
            Tree::Text(ctx),
        ),
    }
}

impl Output {
    /// What the answer says.
    pub open spec fn reply(self) -> Reply {
        match self {
            Output::Passthrough => Reply::Passthrough,
            Output::UpdatedInput(input) => Reply::UpdatedInput(input.tree()),
            Output::Context(ev, ctx) => Reply::Context(ev, ctx@),
        }
    }

    /// The document that answers the hook.
    pub fn json(&self) -> (r: Json)
        ensures
            r.tree() == answer(self.reply()),
    {
        match self {
            Output::Passthrough => {
                let r = Json::Object(Vec::new());
                assert(r.tree() == Tree::Object(Map::<Seq<char>, Tree>::empty()));
                r
            },
            Output::UpdatedInput(input) => {
                let ev = Event::PreToolUse;
                specific(ev.name(), "updatedInput", input.copy())
            },
            Output::Context(ev, ctx) => specific(
                ev.name(),
                "additionalContext",
                Json::Text(text::copy(ctx.as_str())),
            ),
        }
    }

    /// Serialize for writing to stdout.
    pub fn to_string(&self) -> (r: String)
        ensures
            r@ == json::rendered(answer(self.reply())),
    {
        self.json().render()
    }
}

/// `{"hookSpecificOutput":{"hookEventName":..., key: value}}`.
fn specific(event: &str, key: &str, value: Json) -> (r: Json)
    ensures
        r.tree() == specific_tree(event@, key@, value.tree()),
{
    let mut body: Vec<(String, Json)> = Vec::new();
    body.push((text::copy("hookEventName"), Json::Text(text::copy(event))));
    let ghost one = body@;
    body.push((text::copy(key), value));
    let ghost two = body@;
    proof {
        assert(one.drop_last() =~= Seq::empty());
        assert(two.drop_last() =~= one);
        assert(json::member_map(one.drop_last()) == Map::<Seq<char>, Tree>::empty());
        assert(one.last().1.tree() == Tree::Text(event@));
        assert(json::member_map(one) == Map::<Seq<char>, Tree>::empty().insert(
            "hookEventName"@,
            Tree::Text(event@),
        ));
    }
    let mut top: Vec<(String, Json)> = Vec::new();
    top.push((text::copy("hookSpecificOutput"), Json::Object(body)));
    proof {
        assert(top@.drop_last() =~= Seq::empty());
        assert(json::member_map(top@.drop_last()) == Map::<Seq<char>, Tree>::empty());
        assert(top@.last().1.tree() == Tree::Object(json::member_map(two)));
    }
    Json::Object(top)
}

/// Two events are the same exactly when their names are.
pub proof fn lemma_titles_distinct_all(a: Event, b: Event)
    ensures
        a == b <==> a.title() == b.title(),
{
    if a.title() == b.title() {
        lemma_titles_distinct(a, b);
    }
}

/// The answer names its event and carries its payload as it is: rewritten input goes with
/// the hook before a tool, context with the event that it answers; where there is nothing to
/// say the answer is empty.
pub proof fn lemma_answer_carries(ev: Event, ctx: Seq<char>, input: Tree, key: Seq<char>)
    ensures
        json::field(answer(Reply::Passthrough), key) is None,
        json::inner(answer(Reply::Context(ev, ctx)), "hookSpecificOutput"@, "hookEventName"@)
            == Some(Tree::Text(ev.title())),
        json::inner(answer(Reply::Context(ev, ctx)), "hookSpecificOutput"@, "additionalContext"@)
            == Some(Tree::Text(ctx)),
        json::inner(answer(Reply::UpdatedInput(input)), "hookSpecificOutput"@, "hookEventName"@)
            == Some(Tree::Text("PreToolUse"@)),
        json::inner(answer(Reply::UpdatedInput(input)), "hookSpecificOutput"@, "updatedInput"@)
            == Some(input),
        key != "hookSpecificOutput"@ ==> json::field(answer(Reply::Context(ev, ctx)), key) is None
            && json::field(answer(Reply::UpdatedInput(input)), key) is None,
{
    reveal_strlit("hookEventName");
    reveal_strlit("additionalContext");
    reveal_strlit("updatedInput");
    assert("hookEventName"@.len() != "additionalContext"@.len());
    assert("hookEventName"@.len() != "updatedInput"@.len());
}

/// Making an input portable changes the path and nothing else.
pub proof fn lemma_portable_input(tool_input: Tree, windows: bool, key: Seq<char>, p: Seq<char>)
    ensures
        key != "file_path"@ ==> json::field(portable_input(tool_input, windows), key)
            == json::field(tool_input, key),
        json::field(tool_input, "file_path"@) == Some(Tree::Text(p)) ==> json::field(
            portable_input(tool_input, windows),
            "file_path"@,
        ) == Some(Tree::Text(portable_of(p, windows))),
{
}

} // verus!
