# ai_memory_panel

The logic behind a read-only panel over a project memory: what the screens show and how a
session brief is put together, and the repair of session times from transcripts. Every
function of the library carries a contract that Verus proves.

- `brief`, `briefing`: the text that a session starts with, within a budget of bytes, and
  the screen that shows it.
- `overview`, `timeline`, `pages`, `proposals`, `cross_project`: the other screens.
- `rules`, `union_find`: rule pages of several projects that say the same thing.
- `transcripts`, `session_id`, `repair`: session times from transcripts.
- `clock`, `href`, `labels`, `tally`, `order`, `json`, `number`, `text`, `utf8`: what these
  are built on.

Statements about several functions at once are proof functions whose names start with
`law_`. What is taken on trust of jiff, uuid, serde_json, sha2 and the standard library
stands in `clock`, `session_id`, `json`, `proposals`, `rules` and `text`, each with a
comment that says what is claimed.

`app/` holds what is not verified: queries, the walk over directories, request handlers,
and floating point. `tests/` runs the library with those crates linked.
