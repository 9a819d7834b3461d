# gigatoken_addon

A local tokenizer addon for a `llama.cpp`-style server with a direct-token chat
API: it recovers a byte-level BPE vocabulary from GGUF model metadata,
tokenizes prompts locally, and renders `/v1/chat_pretokenized` requests whose
message content carries the locally computed token ids.

The library under `src/` is verified with Verus:

| Module | Contents |
| --- | --- |
| `gguf` | GGUF metadata as spec functions over the file's bytes, and the verified reader (`parse_vocab`, `parse_bytes`). |
| `index` | A text -> lowest-id index (`TextIndex`) over the token list. |
| `bpe` | The byte-level BPE (`BpeTokenizer`), its spec, and its laws (merge-free, idempotent, lossless). |
| `bytes_to_unicode` | GPT-2 byte-fallback texts back to raw bytes. |
| `gtffi` | The content of the gigatoken C-ABI tables. |
| `hftok` | Respelling the qwen35 regex in a server `tokenizer.json`. |
| `pretok` | JSON bodies, HTTP request text, and reading replies. |
| `textutil` | Decimal rendering, byte helpers, lossy UTF-8 decoding. |

`app/` holds what runs around it: reading GGUF files, the HTTP exchange, the
gigatoken C ABI loaded with `libloading`, the exported C entry points and the
CLI.
