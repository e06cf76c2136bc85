# zotero_bridge

A local companion for Zotero: it keeps a full-text index of a Zotero
installation (read through Zotero's Local API), mirrors every item as a
shortcut file (`.url` on Windows, `.webloc` on macOS) that opens the item in
Zotero, and backs up and restores Zotero's own preferences (`prefs.js`).

## Layout

- `src/` — the verified library (Verus). Every decision of the program lives
  here, with its contract:
  - `search` — query tokenizing and the SQL plan of a search (statement text
    and bound values);
  - `normalizer`, `dto` — turning Zotero items into index records;
  - `engine`, `state` — the sync rounds: full or incremental, version
    settling, deletions, mirror job planning, mirror refresh;
  - `filename`, `ztemplate`, `zotero_prefs` — shortcut file names from
    legacy `{placeholder}` templates and Zotero's `{{...}}` templates;
  - `json` — stored item JSON as a tree of plain values, and the lookups
    that templates make in it;
  - `mirror`, `worker` — shortcut file contents and the filesystem steps of
    each mirror job;
  - `prefs_backup` — parsing, classifying, backing up and merging
    `prefs.js` preferences;
  - `paths`, `config`, `models`, `launcher`, `numbers`, `text`, `errors` —
    supporting models and text operations.
- `tests/` — tests of the library on concrete values.
- `app/` — the `zsb` command line program around the library: SQLite
  storage, the HTTP client for the Local API, the filesystem, the
  environment and argument parsing.
