# Frontier simulator

Transport-level benchmarking of debrid providers. A benchmark downloads a file
in parallel byte ranges, follows the frontier (the bytes at the start of the
file that are there without a gap), and finds the bitrate that a player could
have sustained on that timeline.

The library in `src/` holds the rules and computes with whole numbers. Its logic
is verified with Verus. What it asks of libcurl, of `sha2` and of a few functions
of the standard library is not: those calls stand behind small wrappers in
`curl_ffi`, `url_hash`, `text` and `premiumize`, and `String::push` has a
specification in `text`. Their contracts are believed, and their doc comments say
what is claimed. `app/` is the command line tool around the library:
libcurl transfers, calls of the providers' APIs, JSONL traces, SQLite and
printing.

| Modules | What they hold |
|---|---|
| `tracker`, `budget`, `runner`, `envelope` | the frontier, the simulated player and its binary search, a run from trace events to a capability envelope |
| `pages`, `headers`, `download`, `probe` | page accounting, response heads, what a download and a probe amount to |
| `reactor`, `retry`, `outcome` | the decisions of the transfer loop: what to start, what has stalled, what to request again, how a request ended |
| `provider`, `realdebrid`, `premiumize` | assets and their keys, API calls and what to make of the responses |
| `config`, `plan`, `runs` | configuration, flags, chunk plans, targets, stored runs |
| `transport`, `curl_ffi`, `url_hash` | protocol modes, the linked libcurl version, hashes of URLs |
| `text`, `stable`, `seqs`, `events` | text, stable sorting, sums and searches, trace events |

Units: times are nanoseconds or milliseconds as the names say, a throughput is
an exact fraction of bytes and milliseconds, and a bitrate is a number of units
of which one megabit per second has 655,360, so that every bitrate the search
visits is exact.

The facts that relate several functions are public proof functions next to the
functions they speak of, such as `frontier_is_first_gap`,
`tail_drain_never_raises_budget`, `every_chunk_is_accounted_for`,
`retry_asks_for_what_is_missing`, `plan_covers_download` and
`canonical_is_injective`.
