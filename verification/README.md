# rlm

Primitives for recursive language models, verified with Verus. A long context lives in a
store, outside of a model's prompt; the model reaches it through a small set of tools that
search it, fetch slices of it, hand slices to sub-queries, and keep findings in a memory.

- `src/` is the library. Verus proves the contract of every function but the wrappers round
  calls into other crates and the standard library. Theirs are taken for granted, and their
  doc comments say what they claim: of the BM25 index (`ranking`), regular expressions
  (`pattern`), the maps of the store (`shared_map`), JSON (`json`), UUIDs (`session`) and
  parts of the standard library's text handling (`unicode`).
- `tests/` runs it.
- `app/` puts it into a session: it walks directories and reads files, parses arguments and
  serialises answers, and asks a provider.

Functions named `law_*` state what holds of the library as a whole: identifiers lead back to
their chunks, chunks cover the text and point into it, what is kept is what is read, the
count of bytes stays within its cap, a search gives the top matches, no preview is the whole
chunk, and what goes into a message history is short.
