# sync_sessions

Turns the JSONL logs of coding sessions into Markdown notes for an Obsidian vault, and keeps the
notes up to date as the logs grow.

- `src/` is the library. Its functions carry contracts that Verus proves.
  - `text`, `order`: lines, white space, decimal numbers, the order of texts
  - `json`, `json_text`: JSON values, and their compact text as `serde_json` writes it
  - `calendar`: days as dates of the Gregorian calendar, and the order of dates
  - `clock`: instants as `chrono` reads them from text and writes them as local dates and times
  - `entry`: the entries of a log, what is shown of them, and their times
  - `merge`: the entries of one session, each once, by time
  - `select`: the entries that are shown
  - `paths`, `project`, `summary`: names of projects and files, and what a session is about
  - `markdown`, `note`, `index`: the note on a session, its record, and the index of all sessions
  - `sync`: which logs have to be read, and which sessions to be written again
  - `laws`, `laws_of_text`, `laws_of_notes`: what holds of the library as a whole
- `app/` is the program: files, SQLite, `serde`, and the walk through the directories.
  `SESSION_LOGS_PATH` names the directory of the logs, `CLAUDE_SESSIONS_PATH` the vault, and
  `SESSION_INDEX_TITLE` the title of the index.
- `tests/` runs the library on concrete values.

What is trusted about `serde_json`, `chrono` and the standard library stands in `json_text`,
`json`, `clock` and `text`, on the items that call them.
