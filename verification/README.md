# tsk-core

The core of TSK, a token saving kit for coding agents. It answers an agent's hook events so
that less text enters the context window, and keeps accounts of what that saves.

- **Input.** A `Read` of a long file is pointed at its skeleton, a very large file at a
  pointer to a copy that is kept whole, and a file that the project has an analysis script
  for at the script's conclusions. An explicit offset or limit always gets the file itself.
- **Output.** A ruleset and a short reminder ask for terse replies, at the level that the
  configuration sets.
- **History.** Before a compaction a small snapshot of role, decisions, skills and intent is
  kept, and a session that comes back resumes from it.

`src/` is written in Verus: every function carries a contract that Verus proves, and the laws
that span functions are public proof functions. Nothing in it reads or writes a file, starts a
process or looks at the environment; its functions take what was read and say what to answer
and what to write. What it takes from `serde_json`, `sha1` and the standard library goes
through a few declarations whose contracts are trusted, each beside the code that needs it.

Sizes and counts are constants; for one run a variable `TSK_ADV_<CONST>` overrides one, such as
`TSK_ADV_ROUTE_THRESHOLD`. `config::Limits` is what then holds. Paths have forward slashes; on
Windows they are brought into that form first.

`app/` is the `tsk` command around the library: arguments, files, processes, YAML.

| Module | What it holds |
| --- | --- |
| `inject` | the hooks: what to answer, what to write, what to record |
| `compress` | skeletons and externalized texts |
| `snapshot` | the snapshot of a session and its resumption |
| `sandbox` | environment, command line and caps of analysis scripts |
| `policy`, `config`, `events` | the routing rule, the settings and limits, the hook protocol |
| `ledger`, `tally`, `report` | the accounts and their reports |
| `settings`, `commands` | installing, removing and checking the hooks |
| `search` | words, snippets and ranking over what was kept |
| `storage`, `path` | where files lie |
| `json`, `text`, `number`, `calendar`, `assets` | documents, texts, numbers, time stamps, injected texts |
