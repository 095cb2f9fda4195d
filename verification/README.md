# shapez

Structural shape inference over streams of semi-structured values, with its
behaviour stated in contracts and proved by Verus.

shapez watches a stream of documents and infers a `ShapeNode` tree: which
objects are records and which are maps, which arrays are tuples and which are
bags, and where a path holds values of different shapes. A sniffer says what
can be measured of unknown bytes, and a generator draws documents that conform
to a schema.

## Layout

`src/` is the library; every item of it is verified.

- `path`: the path language, its parser and its printer, and the proof that
  they are inverse.
- `sketch`: Space-Saving counters, with the bounds on what they miss.
- `analyze`: the streaming analyzer. `machine` is the model, `engine` runs it,
  `upkeep` proves its invariant, `memory` what it never takes back, `finish`
  reads the shape, `summary` and `outline` write the report, and
  `engine::saved` takes an analyzer up where it was left.
- `json`: documents, the texts that spell them, the events that they are, and
  what the analyzer makes of whole streams of them.
- `batch`: sources and lines of documents, time windows, and the timestamps and
  ids that they are filtered by.
- `sniff`: encodings, sampling, n-gram profiles, and the ranking of candidates.
- `synth`: schemas, templates, and documents drawn from them: a seed settles
  which.
- `report`, `node`, `value`, `stats`, `assertions`, `exceptions`, `session`:
  the vocabulary that is shared.

`app/` is ordinary Rust around it: files, foreign callers, wire formats, and
what is computed with floating-point numbers. `tests/` runs the library.

## Floating point

The library compares and counts doubles by their bits and never computes with
them. A report is a sequence of tokens; shares, means and percentiles become
text in `app/`. The bounds of the buckets of a distribution sketch are handed
in as a table.
