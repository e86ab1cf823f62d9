# can_parser

Parses CAN bus logs stored in a layered binary format and decodes the frames' signals
with a DBC database. The library in `src/` is written in Verus: every function states
what it returns in its contract, and Verus proves it, except for five small functions
whose contracts are trusted because they call code outside the library:
`compression::gunzip` (flate2's `GzDecoder`, whose result is only named by
`gzip_decode`), `memory_pool::clear_string` (`String::clear`),
`text::string_from_chars` (collecting characters into a `String`),
`platform::unix_time_millis` (the system clock) and `platform::cpu_count`
(`num_cpus::get`). `compression::ExIoError` declares `std::io::Error` to Verus.

## Layout

- `src/wire.rs`, `src/text.rs`: byte fields and the text operations the DBC reader uses.
- `src/signal_decode.rs`, `src/dbc_parser.rs`: the DBC grammar, the message database and
  bit-exact signal extraction.
- `src/compression.rs`: gzip blocks, through flate2.
- `src/frame_parser.rs`: the layered `.bin` format, block by block.
- `src/concurrent_frame_parser.rs`, `src/batch_concurrent_parser.rs`,
  `src/async_pipeline.rs`, `src/ultra_fast_worker.rs`: the other readings of the format
  used by the parallel modes, and how the batch mode groups blocks.
- `src/memory_pool.rs`, `src/high_performance_optimizer.rs`, `src/file_cache.rs`,
  `src/worker.rs`, `src/metrics/`: pooled buffers, tuning values, cache counters, run
  bookkeeping and the metric updates each event makes.
- `src/config.rs`: run settings.
- `app/`: the command-line program: file and network I/O, async tasks, progress bars,
  JSON output, the metrics recorder and the floating-point estimates.
- `tests/`: tests of the library on concrete inputs.
