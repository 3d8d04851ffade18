# yume_override

Compiles a proxy profile (a mihomo/Clash YAML document) into the runtime
configuration: it decrypts age-encrypted sources, applies YAML and JavaScript
overrides, patches the runtime keys, moves every provider file into the
profile's own directory, checks that none escapes it, and writes the result in
schema order.

The library in `src/` is written in Verus: each function carries a contract
over a mathematical model of its data, and the properties that span several
functions are stated and proved as public proof functions.

- `json` — the JSON value model, objects as ordered key lists, lookup and
  insertion with the read-after-write law, and `json_wf`, the well-formed
  tree in which no object holds a key twice; the override engine, the runtime
  patch and the normal form all keep it.
- `text` — string specifications: trimming, lines, case, search, decimals.
- `model`, `cli`, `io` — request types, command words and exit codes, override
  loading decisions.
- `compiler` — schema checks, the override engine (`patch`), schema-ordered
  normal form (`normalize`), Unix path algebra and provider file rules
  (`paths`), the runtime patch and provider scope check (`runtime`), digests
  (`digest`), and the age decryption steps: key parsing and trying the keys
  in order are verified, the decryption itself is the age crate's, its result
  named by `age_open`.
- `engine` — override kinds, YAML tagging of short ids, the helper codecs of
  the script engine (base64, fetch URLs, HTTP responses).

`app/` is the ordinary Rust around it: file and socket I/O, the serde codecs,
the embedded JavaScript engine, the command line and the C entry points.
`tests/` exercises the library on concrete values.
