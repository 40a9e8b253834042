# oxiuse

Class and property hierarchies of an RDF dataset, kept as multi-parent trees
and labelled with interval codes, so that whether one class lies below
another can be read off two codes: a node met at pre-order number `start`
gets the code `[start, end]`, where `end` is `start` plus the number of nodes
below it.

- `src/` is the verified library (Verus):
  - `interval_node`, `tree_node`, `tree`: the trees, their insertion and
    their encoding;
  - `graph`: the mathematics of the unfolded tree and the laws of the codes;
  - `links`: child lists and intervals agree in trees built by insertion;
    where the inserted edges form no cycle, such a tree can be encoded
    within the `u32`/`u16` limits, encoding codes every interval, and in a
    tree where no node has two parents the stored codes tell ancestry;
  - `ancestry`: paths down the child lists, and how the encoding walk shows
    them;
  - `hashing`: the 128-bit SipHash of an IRI that identifies a node, the
    same hash as oxigraph's `StrHash`. oxigraph keeps `StrHash` in a private
    module, so the library calls `siphasher`, the crate that oxigraph
    computes it with, directly;
  - `loading`: reading N-Triples lines into trees;
  - `triples`, `reasoning`: inference of triples over the encoded trees;
  - `programs`: the computing part of each command-line program;
  - `vocab`: the IRIs used.
- `app/` holds the command-line programs: reading files, the oxigraph store,
  timing and printing.
- `tests/` holds the tests.
