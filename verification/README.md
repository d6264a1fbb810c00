# megadl

A downloader for public mega.nz links, with its logic verified by
[Verus](https://github.com/verus-lang/verus).

- `src/` is the library. Every function in it states in `requires` and
  `ensures` what it takes and gives, and Verus proves it: links, base64,
  AES keys and attributes, the chunked MAC, counter-mode streams that start
  anywhere, folder trees, what a selection comes to, API requests and their
  retries, the proof of work, HTTP heads and bodies, resumable downloads,
  the checkbox picker, the command line and the screens. What holds of
  several functions together stands in the public proof functions whose
  names begin with `law_`.
- `app/` is ordinary Rust around it: sockets and TLS, files, the terminal,
  threads, and what is computed in floating point. It does what the
  library's state machines say and hands back what came of it.
- `tests/` runs the library on concrete values, with the real ciphers,
  hashes and JSON.

What is believed without proof are the contracts of a few small functions
that call `aes`, `ctr`, `sha2`, `serde_json` and the standard library. They
are marked `external_body` in `cipher.rs`, `hashcash.rs`, `json.rs` and
`text.rs`, each with a comment that says what is claimed.
