# crawler

Three crawlers (process-, thread- and task-based) fetch the home page of
each school in a list, turn the HTML into plain text, save it under
`Docs/高校名称和官方网站/`, and print timing and memory figures.

- `src/` is the verified library:
  - `html` — the HTML-to-text pipeline over the `regex` crate, with the
    pipeline's result stated step by step;
  - `text` — Unicode whitespace, trimming;
  - `status` — reading `VmRSS` out of a `/proc/self/status` table;
  - `report` — tallying outcomes, output file names, memory figures.
- `app/` is the program: fetching, writing files, threads and tasks,
  reading `/proc/self/status`, and the floating-point latency statistics.
  Run it with `process`, `thread` or `async` as its argument.
- `tests/` checks the library on concrete inputs, against the standard
  library and the `regex` crate where they compute the same thing.
