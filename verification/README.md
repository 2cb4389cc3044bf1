# cdbgen_rs

Generates DJB-compatible CDB databases from remote blocklists.

The crate is split in two:

- `src/` is the verified library. It parses blocklists (plain domains, hosts
  files, Unbound `local-zone`/`local-data`, RPZ and exact-domain Adblock
  rules), detects their format, normalises domain names, validates the
  configuration, plans which outputs to write, encodes CDB keys and decides,
  attempt by attempt, what a fetch of a source yields. Every public function
  carries a contract that Verus proves; the laws of the library stand either
  in those contracts or as public proof functions (named `law_...`) beside
  the code they are about.
- `app/` is the program around it: command-line parsing, logging, reading the
  TOML configuration, HTTP requests, the cache files and the atomic writing of
  CDB files.

Modules of the library:

| module       | contents                                                     |
|--------------|--------------------------------------------------------------|
| `text`       | character-level string helpers with specifications          |
| `strset`     | `StringSet`, a sorted set of strings without duplicates      |
| `normalize`  | domain normalisation                                         |
| `parser`     | format detection and domain extraction                       |
| `config`     | validation of a raw configuration                            |
| `outputs`    | output plans and their summary                               |
| `cdb_writer` | wire-format keys                                             |
| `cache`      | cache paths and acceptance of cached copies                  |
| `fetcher`    | the retry and cache decisions of a fetch                     |
| `error`      | error types and exit codes                                   |
| `cli`        | the options of a run                                         |

The tests under `tests/` exercise the compiled library.
