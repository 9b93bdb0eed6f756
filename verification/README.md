# laya

A decision service for two local model families (Laya, a ModernBERT encoder, and
OpenThai-SystemOne, a Qwen3.5 text tower) that answers typed questions (`choice`,
`score`, `noul`) about a state, from GGUF model files.

The library under `src/` is verified with Verus. It holds everything that decides
what the service does with its input:

- `gguf`: reading GGUF v3 headers (metadata, tensor directory, data placement);
- `tokenizer`, `pretok`, `unicode`: GPT-2, Gemma and Qwen3 byte-pair tokenizers;
- `models`: question parsing and the token layouts of both model families, option
  orders, control-token sanitizing, model identities;
- `registry`, `request`, `server`: model routing, preset expansion, HTTP routing,
  access control, admission limits and batch expansion;
- `cli`: the command line;
- `json`, `text`, `number`: JSON values, strings and binary64 numbers by their bits.

`app/` is the program around it: process and network I/O, JSON text (serde), the
floating-point inference kernels and the models' forward passes, which take the
verified token layouts as input. `tests/` exercise the library on concrete values.
