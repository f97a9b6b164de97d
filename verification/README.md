# simple_todo

A minimal personal todo / house-projects / reading-list app, served over HTTP
and usable from the command line. The lists are kept as JSON files in the
user's configuration directory (`todo/tasks.json`, `todo/reading.json`,
`todo/house_projects.json`).

## Layout

- `src/` — the library, verified with Verus:
  - `task.rs`, `reading.rs`: the entries of the lists.
  - `list.rs`: adding with the next id, finding, updating, removing and
    reordering entries, with the laws that relate these operations.
  - `formatter.rs`: the plain checklist rendering and its laws.
  - `cli.rs`: what each command-line command does and reports.
  - `api.rs`: what each request of the HTTP interface does to a list, and
    its answer (status code, body, whether to save).
  - `messages.rs`: confirmations, error messages, hook script paths.
  - `html.rs`, `reader.rs`: page titles, host names, removing scripts and
    styles, picking the main content, escaping, and the reader page.
  - `text.rs`: character-level helpers (search, trim, decimal rendering).
  - `storage.rs`: where the task list is kept.
- `app/` — the program: command-line parsing, JSON files, the HTTP server,
  fetching pages and running hook scripts.
- `tests/` — tests of the library.
