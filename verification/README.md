# webstat

Webstat reads web server access logs (combined format, plain or compressed with gzip, bzip2 or
brotli), counts what is in them into a SQLite database, and renders static HTML reports from it.

The library under `src/` is written in Verus: what each function does is stated in its contract and
proved. The program under `app/` is ordinary Rust around it: the command line, files, threads, the
database, templates, and whatever is computed in floating point.

## The library

| Module | What it holds |
| --- | --- |
| `parser` | log lines, their times, batches of entries, rules and the bot filter |
| `aggregator` | finding and ordering files, deciding where to resume, reading, counting, visits, checkpoints, workers, the end of a month |
| `database` | the states of files, rows that are merged, culled and pruned, addresses seen per day and month |
| `fingerprint`, `compression` | how a file is recognized after it was rotated or compressed |
| `ip`, `geo`, `mmdb`, `bitmaps`, `hll` | addresses, countries and their database, sets of addresses, distinct counts |
| `reports`, `progress`, `logging` | texts that are shown |
| `config` | settings and what the command line says instead |
| `text`, `doubles`, `maps`, `ranking` | strings, decimal numbers, hash maps, the best of a list |

Functions whose names start with `law_` state what holds across functions: that a file is not
counted twice after a rotation, that a checkpoint loses nothing, that counters add up, that sketches
merge in any order.

Calls into other crates stand behind small functions marked `#[verifier::external_body]`. Each says
in its comment which function it calls and what is taken for granted of it.

## The program

    webstat [process | generate | all] --config webstat.yaml

`process` reads new log lines into the database, `generate` writes the reports, and `all`, the
default, does both.
