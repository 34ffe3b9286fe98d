//! Configuration in three layers.
//!
//! The user's: `~/.tsk/config.yaml`, two keys only.
//! Engineering: the constants below.
//! Debugging: a variable `TSK_ADV_<CONST>` overrides a constant for one run.

use vstd::prelude::*;

use crate::number;
use crate::number::numeral;
use crate::sandbox::vars_of;
use crate::text;

verus! {

/// The only genuine user decision. The single non-lossless knob: it changes
/// reply *style*, never technical correctness. Default `off` (opt-in).
/// `auto` defers the decision to the session: skip injection while the session
/// is too short for output compression to pay back its fixed ruleset cost.
#[derive(Debug, Clone, Copy, PartialEq, Eq, Structural)]
pub enum CompressionLevel {
    Off,
    Lite,
    Full,
    Ultra,
    Auto,
}

/// The settings of TSK.
#[derive(Debug, Clone, Copy, PartialEq, Eq, Structural)]
pub struct Config {
    /// One-key global off (diagnostics safety valve).
    pub enabled: bool,
    /// Output-style compression. `Off` means no injection, ever.
    pub output_compression: CompressionLevel,
}

impl Default for Config {
    fn default() -> (r: Self)
        ensures
            r == (Config { enabled: true, output_compression: CompressionLevel::Off }),
    {
        Config { enabled: true, output_compression: CompressionLevel::Off }
    }
}

/// YAML exactly as `tsk init` writes it.
pub const DEFAULT_YAML: &'static str =
    "enabled: true\n# output_compression: the only real user decision (changes reply STYLE, never correctness).\n#   off   = no output compression (default)\n#   lite  = short ruleset, low injection cost (~361 tok/session), weaker effect\n#   full  = full ruleset, higher injection (~967 tok/session), strongest effect (-68.8% measured)\n#   ultra = same as full (reserved for a sharper level)\n#   auto  = auto on/off by session length: skip injection for the first 2 turns\n#           (zero cost for short sessions), start injecting from turn 3 (break-even≈3)\n# This option changes reply STYLE (user-visible: replies get terser), but\n# keeps technical CORRECTNESS lossless (code/commands/paths verbatim,\n# AUTO-CLARITY safety exception). Input & history compression are lossless.\noutput_compression: off\n";

impl Config {
    /// Is output compression in force under these settings?
    pub open spec fn compresses(self) -> bool {
        self.enabled && self.output_compression != CompressionLevel::Off
    }

    /// Compression active only when the kill switch is up and a level is chosen.
    pub fn compression_on(&self) -> (b: bool)
        ensures
            b == self.compresses(),
    {
        self.enabled && self.output_compression != CompressionLevel::Off
    }

    /// What was read of the config file; a file that is missing or cannot be understood
    /// leaves the default (enabled, `Off`).
    pub fn load(read: Option<Config>) -> (r: Config)
        ensures
            read matches Some(c) ==> r == c,
            read is None ==> r == (Config {
                enabled: true,
                output_compression: CompressionLevel::Off,
            }),
    {
        match read {
            Some(c) => c,
            None => Config::default(),
        }
    }

    /// YAML exactly as `tsk init` writes it. `output_compression` is the only
    /// real user decision; the comment documents every level, `auto` too.
    pub fn default_yaml() -> (r: &'static str)
        ensures
            r@ == DEFAULT_YAML@,
    {
        DEFAULT_YAML
    }
}

/// Head lines kept in a skeleton.
pub const SKELETON_HEAD: usize = 5;

/// Tail lines kept in a skeleton.
pub const SKELETON_TAIL: usize = 3;

/// Files with fewer lines than this are not compressed (head+tail would overlap).
pub const MIN_LINES: usize = 8;

/// Below this size, a `Read` goes straight to the skeleton path.
pub const ROUTE_THRESHOLD: usize = 50 * 1024;

/// Above this size, a `Read` result is externalized to a pointer + excerpt.
pub const EXTERNALIZE_THRESHOLD: usize = 100 * 1024;

/// Max sandbox stdout; beyond this it is summarized and externalized.
pub const SANDBOX_MAX_OUTPUT: usize = 64 * 1024;

/// Inputs larger than this are refused outright.
pub const SANDBOX_HARD_CAP: u64 = 100 * 1024 * 1024;

/// Sandbox wall-clock budget, in seconds.
pub const SANDBOX_TIMEOUT: u64 = 10;

/// Injection budget in estimated tokens.
pub const INJECT_BUDGET: usize = 500;

/// P1 (role) is never truncated; it is capped at this many chars.
pub const INJECT_P1_MAX_CHARS: usize = 400;

/// Max decisions (P2) kept when over budget, before falling back to 3.
pub const INJECT_P2_N: usize = 5;

/// Max skills (P3) kept.
pub const INJECT_P3_N: usize = 10;

/// Hard ceiling on the resume snapshot on disk.
pub const SNAPSHOT_MAX: usize = 2 * 1024;

/// Above this last-turn input usage, suggest `/compact`.
pub const COMPACT_ADVICE_THRESHOLD: usize = 180_000;

/// Ruleset below this length is diluted by models.
pub const RULESET_MIN_CHARS: usize = 3500;

/// The constants as they hold for one run: the engineering layer under the debugging layer.
/// The length of the ruleset is no matter of a run, so it is not among them.
#[derive(Debug, Clone, Copy, PartialEq, Eq, Structural)]
pub struct Limits {
    pub skeleton_head: usize,
    pub skeleton_tail: usize,
    pub min_lines: usize,
    pub route_threshold: usize,
    pub externalize_threshold: usize,
    pub sandbox_max_output: usize,
    pub sandbox_hard_cap: u64,
    pub sandbox_timeout: u64,
    pub inject_budget: usize,
    pub inject_p1_max_chars: usize,
    pub inject_p2_n: usize,
    pub inject_p3_n: usize,
    pub snapshot_max: usize,
    pub compact_advice_threshold: usize,
}

/// The value of the first variable of that name.
pub open spec fn value_under(vars: Seq<(Seq<char>, Seq<char>)>, name: Seq<char>) -> Option<
    Seq<char>,
>
    decreases vars.len(),
{
    if vars.len() == 0 {
        None
    } else if vars[0].0 == name {
        Some(vars[0].1)
    } else {
        value_under(vars.drop_first(), name)
    }
}

/// What a variable sets: its number, where it is one that fits, else the standard.
pub open spec fn overridden(
    vars: Seq<(Seq<char>, Seq<char>)>,
    name: Seq<char>,
    standard: nat,
    most: nat,
) -> nat {
    match value_under(vars, name) {
        Some(v) => match numeral(v) {
            Some(n) => if n <= most {
                n
            } else {
                standard
            },
            None => standard,
        },
        None => standard,
    }
}

/// What a variable sets, as a machine word.
pub open spec fn word_of(
    vars: Seq<(Seq<char>, Seq<char>)>,
    name: Seq<char>,
    standard: usize,
) -> usize {
    overridden(vars, name, standard as nat, usize::MAX as nat) as usize
}

/// What a variable sets, as a long number.
pub open spec fn long_of(vars: Seq<(Seq<char>, Seq<char>)>, name: Seq<char>, standard: u64) -> u64 {
    overridden(vars, name, standard as nat, u64::MAX as nat) as u64
}

/// The limits that hold under these variables.
pub open spec fn limits_of(vars: Seq<(Seq<char>, Seq<char>)>) -> Limits {
    Limits {
        skeleton_head: word_of(vars, "TSK_ADV_SKELETON_HEAD"@, SKELETON_HEAD),
        skeleton_tail: word_of(vars, "TSK_ADV_SKELETON_TAIL"@, SKELETON_TAIL),
        min_lines: word_of(vars, "TSK_ADV_MIN_LINES"@, MIN_LINES),
        route_threshold: word_of(vars, "TSK_ADV_ROUTE_THRESHOLD"@, ROUTE_THRESHOLD),
        externalize_threshold: word_of(
            vars,
            "TSK_ADV_EXTERNALIZE_THRESHOLD"@,
            EXTERNALIZE_THRESHOLD,
        ),
        sandbox_max_output: word_of(vars, "TSK_ADV_SANDBOX_MAX_OUTPUT"@, SANDBOX_MAX_OUTPUT),
        sandbox_hard_cap: long_of(vars, "TSK_ADV_SANDBOX_HARD_CAP"@, SANDBOX_HARD_CAP),
        sandbox_timeout: long_of(vars, "TSK_ADV_SANDBOX_TIMEOUT"@, SANDBOX_TIMEOUT),
        inject_budget: word_of(vars, "TSK_ADV_INJECT_BUDGET"@, INJECT_BUDGET),
        inject_p1_max_chars: word_of(vars, "TSK_ADV_INJECT_P1_MAX_CHARS"@, INJECT_P1_MAX_CHARS),
        inject_p2_n: word_of(vars, "TSK_ADV_INJECT_P2_N"@, INJECT_P2_N),
        inject_p3_n: word_of(vars, "TSK_ADV_INJECT_P3_N"@, INJECT_P3_N),
        snapshot_max: word_of(vars, "TSK_ADV_SNAPSHOT_MAX"@, SNAPSHOT_MAX),
        compact_advice_threshold: word_of(
            vars,
            "TSK_ADV_COMPACT_ADVICE_THRESHOLD"@,
            COMPACT_ADVICE_THRESHOLD,
        ),
    }
}

/// The limits that hold where no variable overrides one.
pub open spec fn standard_limits() -> Limits {
    Limits {
        skeleton_head: SKELETON_HEAD,
        skeleton_tail: SKELETON_TAIL,
        min_lines: MIN_LINES,
        route_threshold: ROUTE_THRESHOLD,
        externalize_threshold: EXTERNALIZE_THRESHOLD,
        sandbox_max_output: SANDBOX_MAX_OUTPUT,
        sandbox_hard_cap: SANDBOX_HARD_CAP,
        sandbox_timeout: SANDBOX_TIMEOUT,
        inject_budget: INJECT_BUDGET,
        inject_p1_max_chars: INJECT_P1_MAX_CHARS,
        inject_p2_n: INJECT_P2_N,
        inject_p3_n: INJECT_P3_N,
        snapshot_max: SNAPSHOT_MAX,
        compact_advice_threshold: COMPACT_ADVICE_THRESHOLD,
    }
}

fn find_number(vars: &Vec<(String, String)>, name: &str) -> (r: Option<u64>)
    ensures
        r matches Some(n) ==> (value_under(vars_of(vars@), name@) matches Some(v) && numeral(v)
            == Some(n as nat)),
        r is None ==> (value_under(vars_of(vars@), name@) matches Some(v) ==> (numeral(
            v,
        ) matches Some(n) ==> n > u64::MAX)),
{
    let ghost all = vars_of(vars@);
    let mut i: usize = 0;
    assert(all.skip(0) =~= all);
    while i < vars.len()
        invariant
            i <= vars@.len(),
            all == vars_of(vars@),
            value_under(all.skip(i as int), name@) == value_under(all, name@),
        decreases vars@.len() - i,
    {
        proof {
            assert(all.skip(i as int)[0] == (vars@[i as int].0@, vars@[i as int].1@));
            assert(all.skip(i as int).drop_first() =~= all.skip(i + 1));
        }
        if text::same(vars[i].0.as_str(), name) {
            return number::parse(vars[i].1.as_str());
        }
        i = i + 1;
    }
    assert(all.skip(i as int).len() == 0);
    None
}

fn word(vars: &Vec<(String, String)>, name: &str, standard: usize) -> (r: usize)
    ensures
        r == word_of(vars_of(vars@), name@, standard),
{
    match find_number(vars, name) {
        Some(n) => if n <= usize::MAX as u64 {
            n as usize
        } else {
            standard
        },
        None => standard,
    }
}

fn long(vars: &Vec<(String, String)>, name: &str, standard: u64) -> (r: u64)
    ensures
        r == long_of(vars_of(vars@), name@, standard),
{
    match find_number(vars, name) {
        Some(n) => n,
        None => standard,
    }
}

impl Limits {
    /// The constants as they stand.
    pub fn standard() -> (r: Limits)
        ensures
            r == standard_limits(),
    {
        Limits {
            skeleton_head: SKELETON_HEAD,
            skeleton_tail: SKELETON_TAIL,
            min_lines: MIN_LINES,
            route_threshold: ROUTE_THRESHOLD,
            externalize_threshold: EXTERNALIZE_THRESHOLD,
            sandbox_max_output: SANDBOX_MAX_OUTPUT,
            sandbox_hard_cap: SANDBOX_HARD_CAP,
            sandbox_timeout: SANDBOX_TIMEOUT,
            inject_budget: INJECT_BUDGET,
            inject_p1_max_chars: INJECT_P1_MAX_CHARS,
            inject_p2_n: INJECT_P2_N,
            inject_p3_n: INJECT_P3_N,
            snapshot_max: SNAPSHOT_MAX,
            compact_advice_threshold: COMPACT_ADVICE_THRESHOLD,
        }
    }

    /// The constants under the variables `TSK_ADV_<CONST>`; a value that is no number, or
    /// none that fits, overrides nothing.
    pub fn read(vars: &Vec<(String, String)>) -> (r: Limits)
        ensures
            r == limits_of(vars_of(vars@)),
    {
        Limits {
            skeleton_head: word(vars, "TSK_ADV_SKELETON_HEAD", SKELETON_HEAD),
            skeleton_tail: word(vars, "TSK_ADV_SKELETON_TAIL", SKELETON_TAIL),
            min_lines: word(vars, "TSK_ADV_MIN_LINES", MIN_LINES),
            route_threshold: word(vars, "TSK_ADV_ROUTE_THRESHOLD", ROUTE_THRESHOLD),
            externalize_threshold: word(vars, "TSK_ADV_EXTERNALIZE_THRESHOLD", EXTERNALIZE_THRESHOLD),
            sandbox_max_output: word(vars, "TSK_ADV_SANDBOX_MAX_OUTPUT", SANDBOX_MAX_OUTPUT),
            sandbox_hard_cap: long(vars, "TSK_ADV_SANDBOX_HARD_CAP", SANDBOX_HARD_CAP),
            sandbox_timeout: long(vars, "TSK_ADV_SANDBOX_TIMEOUT", SANDBOX_TIMEOUT),
            inject_budget: word(vars, "TSK_ADV_INJECT_BUDGET", INJECT_BUDGET),
            inject_p1_max_chars: word(vars, "TSK_ADV_INJECT_P1_MAX_CHARS", INJECT_P1_MAX_CHARS),
            inject_p2_n: word(vars, "TSK_ADV_INJECT_P2_N", INJECT_P2_N),
            inject_p3_n: word(vars, "TSK_ADV_INJECT_P3_N", INJECT_P3_N),
            snapshot_max: word(vars, "TSK_ADV_SNAPSHOT_MAX", SNAPSHOT_MAX),
            compact_advice_threshold: word(vars, "TSK_ADV_COMPACT_ADVICE_THRESHOLD", COMPACT_ADVICE_THRESHOLD),
        }
    }
}

/// Without such variables the limits are the constants.
pub proof fn lemma_standard(vars: Seq<(Seq<char>, Seq<char>)>)
    requires
        forall|i: int| 0 <= i < vars.len() ==> !text::begins((#[trigger] vars[i]).0, "TSK_ADV_"@),
    ensures
        limits_of(vars) == standard_limits(),
{
    assert forall|name: Seq<char>| text::begins(name, "TSK_ADV_"@) implies #[trigger] value_under(
        vars,
        name,
    ) is None by {
        lemma_not_under(vars, name);
    }
    reveal_strlit("TSK_ADV_");
    reveal_strlit("TSK_ADV_SKELETON_HEAD");
    assert("TSK_ADV_SKELETON_HEAD"@.subrange(0, 8) =~= "TSK_ADV_"@);
    assert(value_under(vars, "TSK_ADV_SKELETON_HEAD"@) is None);
    reveal_strlit("TSK_ADV_SKELETON_TAIL");
    assert("TSK_ADV_SKELETON_TAIL"@.subrange(0, 8) =~= "TSK_ADV_"@);
    assert(value_under(vars, "TSK_ADV_SKELETON_TAIL"@) is None);
    reveal_strlit("TSK_ADV_MIN_LINES");
    assert("TSK_ADV_MIN_LINES"@.subrange(0, 8) =~= "TSK_ADV_"@);
    assert(value_under(vars, "TSK_ADV_MIN_LINES"@) is None);
    reveal_strlit("TSK_ADV_ROUTE_THRESHOLD");
    assert("TSK_ADV_ROUTE_THRESHOLD"@.subrange(0, 8) =~= "TSK_ADV_"@);
    assert(value_under(vars, "TSK_ADV_ROUTE_THRESHOLD"@) is None);
    reveal_strlit("TSK_ADV_EXTERNALIZE_THRESHOLD");
    assert("TSK_ADV_EXTERNALIZE_THRESHOLD"@.subrange(0, 8) =~= "TSK_ADV_"@);
    assert(value_under(vars, "TSK_ADV_EXTERNALIZE_THRESHOLD"@) is None);
    reveal_strlit("TSK_ADV_SANDBOX_MAX_OUTPUT");
    assert("TSK_ADV_SANDBOX_MAX_OUTPUT"@.subrange(0, 8) =~= "TSK_ADV_"@);
    assert(value_under(vars, "TSK_ADV_SANDBOX_MAX_OUTPUT"@) is None);
    reveal_strlit("TSK_ADV_SANDBOX_HARD_CAP");
    assert("TSK_ADV_SANDBOX_HARD_CAP"@.subrange(0, 8) =~= "TSK_ADV_"@);
    assert(value_under(vars, "TSK_ADV_SANDBOX_HARD_CAP"@) is None);
    reveal_strlit("TSK_ADV_SANDBOX_TIMEOUT");
    assert("TSK_ADV_SANDBOX_TIMEOUT"@.subrange(0, 8) =~= "TSK_ADV_"@);
    assert(value_under(vars, "TSK_ADV_SANDBOX_TIMEOUT"@) is None);
    reveal_strlit("TSK_ADV_INJECT_BUDGET");
    assert("TSK_ADV_INJECT_BUDGET"@.subrange(0, 8) =~= "TSK_ADV_"@);
    assert(value_under(vars, "TSK_ADV_INJECT_BUDGET"@) is None);
    reveal_strlit("TSK_ADV_INJECT_P1_MAX_CHARS");
    assert("TSK_ADV_INJECT_P1_MAX_CHARS"@.subrange(0, 8) =~= "TSK_ADV_"@);
    assert(value_under(vars, "TSK_ADV_INJECT_P1_MAX_CHARS"@) is None);
    reveal_strlit("TSK_ADV_INJECT_P2_N");
    assert("TSK_ADV_INJECT_P2_N"@.subrange(0, 8) =~= "TSK_ADV_"@);
    assert(value_under(vars, "TSK_ADV_INJECT_P2_N"@) is None);
    reveal_strlit("TSK_ADV_INJECT_P3_N");
    assert("TSK_ADV_INJECT_P3_N"@.subrange(0, 8) =~= "TSK_ADV_"@);
    assert(value_under(vars, "TSK_ADV_INJECT_P3_N"@) is None);
    reveal_strlit("TSK_ADV_SNAPSHOT_MAX");
    assert("TSK_ADV_SNAPSHOT_MAX"@.subrange(0, 8) =~= "TSK_ADV_"@);
    assert(value_under(vars, "TSK_ADV_SNAPSHOT_MAX"@) is None);
    reveal_strlit("TSK_ADV_COMPACT_ADVICE_THRESHOLD");
    assert("TSK_ADV_COMPACT_ADVICE_THRESHOLD"@.subrange(0, 8) =~= "TSK_ADV_"@);
    assert(value_under(vars, "TSK_ADV_COMPACT_ADVICE_THRESHOLD"@) is None);
}

proof fn lemma_not_under(vars: Seq<(Seq<char>, Seq<char>)>, name: Seq<char>)
    requires
        forall|i: int| 0 <= i < vars.len() ==> (#[trigger] vars[i]).0 != name,
    ensures
        value_under(vars, name) is None,
    decreases vars.len(),
{
    if vars.len() > 0 {
        let rest = vars.drop_first();
        assert forall|i: int| 0 <= i < rest.len() implies (#[trigger] rest[i]).0 != name by {
            assert(rest[i] == vars[i + 1]);
        }
        lemma_not_under(rest, name);
    }
}

proof fn lemma_value_first(vars: Seq<(Seq<char>, Seq<char>)>, name: Seq<char>, k: int)
    requires
        0 <= k < vars.len(),
        vars[k].0 == name,
        forall|i: int| 0 <= i < k ==> (#[trigger] vars[i]).0 != name,
    ensures
        value_under(vars, name) == Some(vars[k].1),
    decreases k,
{
    if k > 0 {
        let rest = vars.drop_first();
        assert(vars[0].0 != name);
        assert(rest[k - 1] == vars[k]);
        assert forall|i: int| 0 <= i < k - 1 implies (#[trigger] rest[i]).0 != name by {
            assert(rest[i] == vars[i + 1]);
        }
        lemma_value_first(rest, name, k - 1);
    }
}

/// A variable that spells a number in decimal sets the limit that it names to that number,
/// whatever the standard; the first variable of the name counts.
pub proof fn lemma_override(
    vars: Seq<(Seq<char>, Seq<char>)>,
    name: Seq<char>,
    k: int,
    n: nat,
    standard: usize,
    long_standard: u64,
)
    requires
        0 <= k < vars.len(),
        vars[k] == (name, number::decimal_of(n)),
        forall|i: int| 0 <= i < k ==> (#[trigger] vars[i]).0 != name,
    ensures
        n <= usize::MAX ==> word_of(vars, name, standard) == n,
        n > usize::MAX ==> word_of(vars, name, standard) == standard,
        n <= u64::MAX ==> long_of(vars, name, long_standard) == n,
        n > u64::MAX ==> long_of(vars, name, long_standard) == long_standard,
{
    lemma_value_first(vars, name, k);
    number::lemma_decimal_reads_back(n);
}

/// A variable that spells no number leaves the limit as it is.
pub proof fn lemma_no_override(
    vars: Seq<(Seq<char>, Seq<char>)>,
    name: Seq<char>,
    k: int,
    at: int,
    standard: usize,
    long_standard: u64,
)
    requires
        0 <= k < vars.len(),
        vars[k].0 == name,
        forall|i: int| 0 <= i < k ==> (#[trigger] vars[i]).0 != name,
        vars[k].1.len() == 0 || (0 <= at < vars[k].1.len() && !(48 <= vars[k].1[at] as u32 <= 57)),
    ensures
        word_of(vars, name, standard) == standard,
        long_of(vars, name, long_standard) == long_standard,
{
    lemma_value_first(vars, name, k);
    if vars[k].1.len() > 0 {
        assert(!number::decimal_digit(vars[k].1[at]));
    }
}

/// Each limit goes by the variable that is named after it.
pub proof fn lemma_limits_named(vars: Seq<(Seq<char>, Seq<char>)>)
    ensures
        limits_of(vars).skeleton_head == word_of(vars, "TSK_ADV_SKELETON_HEAD"@, 5),
        limits_of(vars).skeleton_tail == word_of(vars, "TSK_ADV_SKELETON_TAIL"@, 3),
        limits_of(vars).min_lines == word_of(vars, "TSK_ADV_MIN_LINES"@, 8),
        limits_of(vars).route_threshold == word_of(vars, "TSK_ADV_ROUTE_THRESHOLD"@, 51200),
        limits_of(vars).externalize_threshold == word_of(
            vars,
            "TSK_ADV_EXTERNALIZE_THRESHOLD"@,
            102400,
        ),
        limits_of(vars).sandbox_max_output == word_of(vars, "TSK_ADV_SANDBOX_MAX_OUTPUT"@, 65536),
        limits_of(vars).sandbox_hard_cap == long_of(vars, "TSK_ADV_SANDBOX_HARD_CAP"@, 104857600),
        limits_of(vars).sandbox_timeout == long_of(vars, "TSK_ADV_SANDBOX_TIMEOUT"@, 10),
        limits_of(vars).inject_budget == word_of(vars, "TSK_ADV_INJECT_BUDGET"@, 500),
        limits_of(vars).inject_p1_max_chars == word_of(vars, "TSK_ADV_INJECT_P1_MAX_CHARS"@, 400),
        limits_of(vars).inject_p2_n == word_of(vars, "TSK_ADV_INJECT_P2_N"@, 5),
        limits_of(vars).inject_p3_n == word_of(vars, "TSK_ADV_INJECT_P3_N"@, 10),
        limits_of(vars).snapshot_max == word_of(vars, "TSK_ADV_SNAPSHOT_MAX"@, 2048),
        limits_of(vars).compact_advice_threshold == word_of(
            vars,
            "TSK_ADV_COMPACT_ADVICE_THRESHOLD"@,
            180000,
        ),
{
}

} // verus!
