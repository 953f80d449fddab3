# parasync_downloader

A range-based HTTP file downloader. The file is split into byte ranges that
are fetched with `Range` requests, either one after the other over one
connection or concurrently, each written at its own offset of the output file.

- `src/` is the library, verified with Verus:
  - `decimal`: decimal text of `u64` values, rendered and parsed;
  - `byte_range`: the split of `start..=end` into chunks and the `Range`
    header text, with the laws that the chunks cover the span exactly;
  - `async_downloader`: the chunk plan of a file, the per-chunk download
    state machine (where each piece of a body is written, when a chunk is
    handed back), and the range-support probe decision;
  - `sync_downloader`: the one-connection download state machine.
- `app/` is the program: command line, HTTP requests, file writes, the task
  queue and the progress bar. It asks the library for every decision.
- `tests/` runs the library on concrete values.
