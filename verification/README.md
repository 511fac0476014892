# log_analyzer

A log monitoring engine: it follows log files, finds a timestamp in each line with
configurable date formats, groups lines by minute and file, flags error lines, samples
system metrics, and streams everything to a browser dashboard over WebSocket.

The decisions are a library verified with Verus (`src/`); the program around it
(`app/`) does the file watching, threads, sockets, HTTP and system sampling.

- `src/text.rs` — trimming, case folding, substring search and string building over
  `Seq<char>`.
- `src/etl/` — the pipeline: which lines become events and how followed files are
  re-read (`extract`), timestamp search over the configured formats (`parser`, on top
  of chrono), grouping by minute and file and the update sent for each line
  (`transform_load`), and `etl`, one line through all of it.
- `src/helper.rs` — minute buckets, India Standard Time labels, decimal numbers.
- `src/socket.rs` — the hub: bounded replay caches for late clients, broadcast and
  pruning of clients whose send failed.
- `src/web.rs` — request target, asset path, content type and response header.
- `src/chart.rs` — the dashboard's per-minute counts in label order, bounded to 500
  minutes, the bounded metric histories, and the markup of a log line.
- `app/main.rs` — the server program; `app/wasm_client.rs` — the browser side, built for
  WebAssembly on its own.
