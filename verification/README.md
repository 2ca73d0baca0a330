# stardust

The verified core of a retrieval-augmented chat service. Uploaded documents
are cut into overlapping chunks, embedded and stored in a vector collection;
a chat prompt retrieves similar chunks, which are assembled into a context,
queued as a job, turned into a prompt for the language model, and the
model's streamed answer is relayed line by line to the client's WebSocket.

- `src/` — the library, verified with Verus:
  - `chunking`: byte-window chunking with overlap, its definedness test, and
    the laws it obeys (reassembly, window sizes, overlap, ASCII texts).
  - `text`: line splitting, lenient decoding of stream bytes.
  - `context`: retrieval-context assembly.
  - `jobs`: service configuration, embedding requests, chat jobs, the final
    prompt.
  - `relay`: which messages a client receives for a piece of the stream.
  - `ingest`: upload name checks, refusal answers, chunking of uploads.
  - `store`: points, their stored form, upsert batches, similarity hits.
  - `ids`: client and point identifiers.
- `tests/` — tests of the library on concrete values.
- `app/` — the service itself: HTTP/WebSocket endpoints, queue worker,
  calls to the language model and the vector store.
