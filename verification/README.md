# canopybus

A decoder for greenhouse and vertical-farm gateway traffic, written in Verus. It reads
archives in three encodings (a segmented binary format, a stream of checksummed
fragments, and a line-oriented text format), rebuilds fragmented streams, normalizes
device topology, decodes bit-packed sensor pages, evaluates small rule programs and
summarizes journals.

Every function of the library carries a contract over a mathematical model of its
inputs and outputs, and Verus proves it. Decoders are specified by spec functions that
say, byte by byte, what each input decodes to and which error each malformed input
gives; stateful helpers (the stream decoder, the fragment pool, the alias table, the
operand stack) are specified by views of their state.

Layout of `src/`:

- `reader.rs`: byte and bit cursors, varints, the archive checksum.
- `model.rs`, `text_map.rs`: the archive model and an ordered string map.
- `manifest.rs`, `topology.rs`, `schedule.rs`, `page.rs`, `rules.rs`, `journal.rs`:
  segment decoders and the computations on their contents.
- `envelope.rs`: binary archives and the dispatch between encodings.
- `session.rs`: the stream decoder and its reassembly laws.
- `text.rs`: the text encoding.
- `codec.rs`, `query.rs`, `validate.rs`: text output, fingerprints, summaries and checks.
- `store.rs`: small containers used by the decoders.
- `numtext.rs`, `error.rs`: decimal text and the error type.

`tests/` exercises the library on concrete inputs.
