# cas_storage

Metadata records, refcount transactions and offline consistency checking for a
content-addressed block store, verified with Verus.

A store has two halves. The namespace database holds one tree of object records
per bucket. The shared half holds one record per block (size, fanout depth,
reference count, flags), the records of in-flight multipart uploads, and the block
files themselves, each under a path derived from its address.

## Layout

- `src/metastore` -- record formats and their codecs, the traits a backing
  database implements, refcount transactions, the store header, an in-memory
  store, and what holds of listings.
- `src/cas`, `src/hasher.rs`, `src/config.rs`, `src/store_options.rs`,
  `src/metrics.rs` -- the shared block store, addressing and settings.
- `src/scrub` -- the walks over holders, records and files, the passes that
  compare them, the report, the pairing of the two halves, and repair: planning,
  the steps of each action, and the run that puts them in order.
  Everything up to a repair only reads: it finds trees and never opens, and so
  never creates, one.
- `src/fsck.rs` -- what the tool decides before it opens a store.
- `app` -- the `qss-storage-fsck` tool: command line, fjall, the file system.
- `tests` -- the library run on concrete stores.

## What is proved

The functions of `src` state what they return and change: exactly where the
database answers, and where it does not, how far they may have come. What comes
from the machine (the time, a random id, the space a database takes up) is not
stated.

On top of that, public proof functions state what holds across functions: every
record survives being written and read back; a reference taken and released leaves
the count as it was; findings are ordered in one way only; a report without a
closed holder set authorises no change of a count; the counts a repair plans are
those the holders give, and once they are set none is planned again; a repair that
ended clean leaves nothing for the next one to do; a marker reads back as it was
written, so that a second re-pair has nothing to rewrite. Of block files: a walk decides
once on every entry; a file is planned for deletion only where, as the store was
seen, no record is its own or the record's own file is elsewhere; taking holders
away frees only files whose record went with the last reference; corrupt and
foreign files are moved, never deleted.

Calls into other crates (BLAKE3, hexadecimal text, dates, random ids) and into a
few functions of std stand behind small functions marked
`#[verifier::external_body]`, whose doc comments say what is taken on trust.
