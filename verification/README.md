# c2pa-unstructured-text

Embedding a C2PA Manifest Store in unstructured Unicode text as a run of
invisible variation selectors, and the `c2pa.hash.data` hard binding over such
text, written in Verus with its behaviour stated in contracts and proved.

- `src/text.rs` — the UTF-8 model: a text is its `char` sequence, and byte
  offsets are lengths of encoded prefixes.
- `src/vs.rs` — the byte ⇄ variation-selector alphabet (a bijection).
- `src/wrapper.rs` — framing, padding to the deterministic target length,
  locating and stripping wrappers; `src/wrapper/v2.rs` is the checksummed frame.
- `src/hardbinding.rs` — exclusion ranges, covered bytes, compute and verify;
  `src/hardbinding/provided.rs` backs the `Hasher` and `Normalizer` traits with
  `sha2` and `unicode-normalization`.
- `src/error.rs` — errors, their status codes and messages.
- `app/` — the WebAssembly and Python bindings.
- `tests/` — the published vectors and behavioural tests.

The laws proved over the model include: extracting from a text that carried no
wrapper, after one is embedded, yields that wrapper's payload and byte range;
stripping that range gives the text back; a padded wrapper's UTF-8 length is
always the target length; and a binding computed over a text verifies against it.
