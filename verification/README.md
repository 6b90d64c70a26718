# elscione-sync

A resumable mirror for `server.elscione.com`, an h5ai file server.  It crawls the server, keeps
what it found in a state database, and downloads the files that the user selected.  A sync that
is interrupted goes on where it stopped.

The library under `src/` decides; it is written in Verus, and its functions are proved to meet
their contracts, from what `outside` states of other crates.  The program under `app/` does the input and output: the command line, the
configuration file, SQLite, HTTP, the disk and the terminal.

| Module | What it holds |
|---|---|
| `text`, `paths`, `order` | texts, `/`-separated paths, arrangements of rows |
| `cli`, `config` | commands and options, the configuration and its validation |
| `db` | the tables of the state database and the operations on them |
| `crawler` | pages and listings of the server, exclude patterns, the crawl, request slots, the session's clearance |
| `downloader` | batches, local copies, transfers and the course of one download |
| `tui` | the folder selector |
| `sync` | the phases of a sync and the reports |
| `outside` | what is taken from other crates, with the contracts that are relied on |

The laws of the library, such as that finished files stay finished or that a transfer is
appended only at the end of what is there, are the public proof functions whose names begin
with `law_`.

## Commands

`sync` (the default), `select`, `status`, `reset`, `list` and `edit-config`; `--help` lists
their options.
