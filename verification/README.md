# grafite

Provenance records from verifiable Git facts: every commit reachable from
`HEAD` becomes a record carrying its title, its declared rationale and one
`TOUCHES` edge per path it touched; `why <path>` answers which records touched
a path.

`src/` is the library, verified with Verus:

- `text` — the character-sequence model of trimming, splitting, lines and
  string order, with the executable helpers proved against it;
- `git` — reading the formatted `git log` output into commits;
- `extract` — titles (gitmoji, subject, scope) and the five rationale sections;
- `paths` — target classification and the exclusion policy;
- `record` — record types, target identities and JSON Lines framing;
- `commands` — building records from commits;
- `query` — the `why` query;
- `provider` — provider reports;
- `error` — actionable errors.

`app/` is the command-line program: argument parsing, the git subprocess,
provider checks, the record file, and JSON through serde.
