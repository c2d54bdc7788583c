# bandix-plus

Traffic accounting and rate limiting for a router, verified with Verus.

- `src/` is the library. Every function in it is verified against its contract; laws that span
  several functions are the public proof functions named `law_...`.
- `tests/` runs the library on concrete values.
- `app/` is the daemon around it: eBPF classifiers, files, and the HTTP interface.

## Modules

| Module | What it holds |
| --- | --- |
| `common`, `keys`, `table` | keys and values of the tables, and tables by key |
| `packet`, `limiter`, `path` | reading packets, token buckets, what one packet does |
| `counters`, `binary64`, `sort` | counters, binary64 arithmetic in integers, stable sorting |
| `bucket`, `daily`, `series`, `histogram` | hourly and daily buckets, and the history of them |
| `calendar` | local hours, days and periods, by chrono |
| `items`, `history` | what a snapshot shows, and the recent points of it |
| `topology`, `addr`, `runtime`, `snapshot`, `recovery` | making snapshots |
| `text`, `names`, `ring`, `ring_files`, `persistence` | what is kept on disk |
| `api`, `ranking` | what requests are answered |

What the local time is rests on the machine. Functions that ask for it have a counterpart whose
name ends in `_in`, which takes the local hours and days as an argument and is exact.
