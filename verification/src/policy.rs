//! The decision table. Everything policy-related is a pure function of its inputs.
//!
//! There are only two compression strategies that the table itself chooses; sandbox
//! analysis is only ever a candidate, which the caller confirms by finding a script.

use vstd::prelude::*;

use crate::config::{standard_limits, Limits};
use crate::json;
use crate::json::{Json, Tree};
use crate::text;

verus! {

/// How a file is compressed.
#[derive(Debug, Clone, Copy, PartialEq, Eq, Structural)]
pub enum Plan {
    /// Keep head + tail, replace the middle with a retrieval marker.
    Skeleton,
    /// Full text to disk, redirect the `Read` at a pointer + excerpt.
    Externalize,
    /// Run the project's `analyze_<ext>` sandbox script; its stdout enters context.
    /// Only a candidate here: the caller must confirm the script exists.
    Sandbox,
}

/// Does the call ask for a part of the file?
pub open spec fn escapes(tool_input: Tree) -> bool {
    json::field(tool_input, "offset"@) is Some || json::field(tool_input, "limit"@) is Some
}

/// The escape hatch is always on and never configurable:
/// an explicit `offset` or `limit` is a retrieval, never something to compress.
pub fn is_escape(tool_input: &Json) -> (b: bool)
    ensures
        b == escapes(tool_input.tree()),
{
    tool_input.get("offset").is_some() || tool_input.get("limit").is_some()
}

/// Is `ext` the extension of an aggregate-shaped file?
pub open spec fn aggregate(ext: Seq<char>) -> bool {
    ext == "log"@ || ext == "jsonl"@ || ext == "csv"@ || ext == "json"@ || ext == "tsv"@
}

/// Aggregate-shaped file extensions: these are candidates for sandbox analysis. The
/// sandbox still requires a pre-placed `analyze_<ext>` script; without one the caller
/// falls back to Skeleton (never guess, never fabricate a script).
pub fn is_aggregate_ext(ext: &str) -> (b: bool)
    ensures
        b == aggregate(ext@),
{
    text::same(ext, "log") || text::same(ext, "jsonl") || text::same(ext, "csv") || text::same(
        ext,
        "json",
    ) || text::same(ext, "tsv")
}

/// The plan for a `Read` of a file of that size and extension.
pub open spec fn plan_for(orig_bytes: Option<usize>, ext: Seq<char>, lim: Limits) -> Plan {
    match orig_bytes {
        Some(n) => if n > lim.externalize_threshold {
            Plan::Externalize
        } else if n > lim.route_threshold && aggregate(ext) {
            Plan::Sandbox
        } else {
            Plan::Skeleton
        },
        None => Plan::Skeleton,
    }
}

/// Route a `Read` by file size and shape. `None` size means we cannot decide: skeleton.
pub fn route(orig_bytes: Option<usize>, ext: &str) -> (r: Plan)
    ensures
        r == plan_for(orig_bytes, ext@, standard_limits()),
{
    route_within(orig_bytes, ext, &Limits::standard())
}

/// Route a `Read` by file size and shape, within the limits of the run.
pub fn route_within(orig_bytes: Option<usize>, ext: &str, limits: &Limits) -> (r: Plan)
    ensures
        r == plan_for(orig_bytes, ext@, *limits),
{
    match orig_bytes {
        Some(n) => if n > limits.externalize_threshold {
            Plan::Externalize
        } else if n > limits.route_threshold && is_aggregate_ext(ext) {
            Plan::Sandbox
        } else {
            Plan::Skeleton
        },
        None => Plan::Skeleton,
    }
}

/// The table is about size: a file above the larger threshold is externalized, and so is
/// every larger one; one not above the smaller threshold gets a skeleton, and so does every
/// smaller one; only an aggregate between the two is analysed, and every aggregate there is.
pub proof fn lemma_thresholds(n: usize, m: usize, ext: Seq<char>, lim: Limits)
    ensures
        n > lim.externalize_threshold <==> plan_for(Some(n), ext, lim) == Plan::Externalize,
        n <= m && plan_for(Some(n), ext, lim) == Plan::Externalize ==> plan_for(Some(m), ext, lim)
            == Plan::Externalize,
        n <= m && plan_for(Some(m), ext, lim) == Plan::Skeleton ==> plan_for(Some(n), ext, lim)
            == Plan::Skeleton,
        plan_for(Some(n), ext, lim) == Plan::Sandbox <==> lim.route_threshold < n
            <= lim.externalize_threshold && aggregate(ext),
        plan_for(None, ext, lim) == Plan::Skeleton,
{
}

} // verus!
