# minlz

A verified MinLZ codec in Rust and Verus: a fast LZ77 block format, a chunked stream
format with checksums, and an index by which a stream is read from any place.

| place        | what it holds                                                            |
|--------------|--------------------------------------------------------------------------|
| `src/block`  | the block format, its decoder, and the encoders of the three levels      |
| `src/stream` | chunks, reader, writer, seeking, and the work that is shared by workers  |
| `src/index`  | the index: adding, reducing, finding, its bytes, scanning a stream       |
| `src/mz`     | what the command-line tool decides: arguments, paths, sizes, its jobs    |
| `app`        | the command-line tool around the library: files, threads, time, printing |
| `tests`      | tests of the library                                                     |

Every function of `src` has a contract, and Verus proves it. A handler of user chunks
(`stream::UserChunkHandler`) may state what it does; one that states nothing may do
anything, and a reader says what it does for each answer. The contracts of the
encoders fix every byte: `block::encoded` is the block of an input at a level, and
`stream::in_step::stream_of` is the stream. The functions named
`law_...` state what holds of several functions together; among them:

* decoding a block gives back what was encoded (`block::law_decode_inverts_encode`);
* reading a stream gives back what was written (`stream::in_step::law_stream_reads`,
  `stream::roundtrip`, `stream::mt_laws`), and so does decoding it with workers
  (`stream::concurrent`);
* where writes are not put out at once, the stream does not depend on how the data was cut
  into writes, nor on whether workers took part; a writer that starts over does what a new
  one does (`stream::calls`);
* a writer with workers puts out the same bytes and the same index as one without
  (`stream::in_step`);
* reading with workers gives what reading in order gives (`stream::concurrent`);
* the callback for a type of user chunks is called with each of them, once and in their
  order; where it answers with an error, reading ends there with that error
  (`stream::chunk::took`, which holds of every reader, and `stream::roundtrip`);
* skipping, and going to a place by the index, lead to the data from there on, from
  wherever the reader stands; after any reads and skips it stands at their sum
  (`stream::positions`, `stream::seeking`, `stream::scanned`);
* an index that was appended to a stream loads as it was (`index::parse`).

Two functions of the standard library are taken on trust, in `src/mz/size.rs`:
`str::to_uppercase` and `char::is_alphabetic`.
