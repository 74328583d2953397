# rtk_sf

Filters for the output of the Salesforce CLI (`sf`), verified with Verus.

- `src/text.rs` — text as character sequences: `lines`, `join_lines`,
  trimming and prefix tests, each specified over `Seq<char>`.
- `src/cmds/cloud/sf_cmd.rs` — human-readable output: routing of `sf`
  arguments, `org list` deduplication and capping, `project deploy`
  progress stripping, stack-line stripping of errors, and the laws these
  filters obey.
- `src/sf_cmd.rs` — `--json` output: adding the flag, and reducing an error
  object (parsed with serde_json) to one line.
- `app/` — running `sf` and printing the filtered output.
- `tests/` — tests of the library on concrete inputs.
