# buddy_cast

A command-line tool that lists, downloads, decrypts and converts UDCast
subtitle packages, with its core written in Verus and proved against its
contracts.

- `src/` is the verified library: byte decryption, the content-list rules
  (normalization, display filter, lookups), the database parser, zip entry
  listing and extraction planning with safe paths, ruby markup and the ASS
  and SRT renderers, the table layout and the workflow's decisions (which
  extracted files to decrypt, the names of every file written). Calls into
  the `base64` and `zip` crates go through a few trusted wrappers whose
  contracts are written next to them.
- `app/` is the program around it: argument parsing, HTTP, files on disk,
  progress bars, JSON and XML (de)serialization, and the floating-point
  rounding of subtitle times.
- `tests/` runs the library on concrete inputs.
