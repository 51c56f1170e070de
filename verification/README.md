# mazu

A Mazu temple on the command line, with its logic verified by Verus.

`curl` the web front and Mazu tells you which visitor of the day you are; the
same visitor on the same day keeps the first number, also after a restart.
The terminal temple (walk with the arrow keys, bow below the shrine with
Space) shares one courtyard among everyone inside.

## Layout

- `src/` — the verified library:
  - `counter.rs`: the ledger of visits, per day, with its log as a journal of writes;
  - `replay.rs`: why the log, read back, gives the ledger again;
  - `calendar.rs`: dates from day numbers, today in UTC+8;
  - `http.rs`: routing, answers, request lines and headers;
  - `site.rs`: the landing page for terminals and browsers;
  - `space.rs`, `keys.rs`: the temple, its faces and key decoding;
  - `sha256.rs`: the hash that visitors are counted by;
  - `text.rs`: characters, decimal numbers, splitting and trimming.
- `app/` — the server around it: sockets, threads, files.
- `tests/` — tests of the library on concrete values.

Properties that span several calls are stated as public proof functions
whose names begin with `law_`.
