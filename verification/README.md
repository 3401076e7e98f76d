# throttlegear

Decrypts and encrypts ASUS ThrottleGear XML configuration files and turns
their power limits into quirk entries (and patches) for the Linux
`asus-armoury` driver. The library in `src/` is verified with Verus; `app/`
is the command-line front end (arguments, files, fetching the kernel header,
the clock).

## Layout

- `src/text.rs`: character-level helpers and their specifications (trimming,
  searching, integer parsing and printing, string order).
- `src/strmap.rs`: `StrMap`, a map with string keys kept in ascending order.
- `src/crypto.rs`: key and IV derivation, AES-256-CBC (through the `aes` and
  `cbc` crates), Base64.
- `src/xml.rs`, `src/xml_parse.rs`, `src/xml_write.rs`: the XML tree, its
  parser and its writer; `src/xml_roundtrip.rs` proves that parsing written
  text gives the tree back.
- `src/xml_crypt.rs`: W3C XML Encryption of the root's child elements, and its
  inverse.
- `src/limits.rs`, `src/c_struct.rs`: power limits of a profile, their sanity
  checks, and the C initializer of a `power_limits[]` entry.
- `src/patch.rs`, `src/diff.rs`, `src/patch_file.rs`: finding, reading and
  updating table entries, the unified diff, and the whole patch.
- `src/convert.rs`: converting a document to the opposite state (encrypted
  to decrypted and back), and decrypting it before its limits are read.
- `src/paths.rs`: the name of the output file.
- `tests/`: tests of the library.
