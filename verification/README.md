# banyanfs

The core of an encrypted, content-addressed filesystem, written in Verus. The functions in
`src/` carry contracts that Verus proves, except the small wrappers marked
`#[verifier::external_body]` around calls into other crates (BLAKE3, XChaCha20-Poly1305, the
random number generator, the clock, `slab`, `mime_guess`): their contracts are trusted, and
each one's doc comment says what it claims of the call.

- `codec/` — identifiers, byte parsers and writers, the identity header, block sizes, node
  kinds, nonces, key wrapping with XChaCha20-Poly1305, and data blocks: each holds one chunk
  of at most 256 KiB of file data, stored as a random nonce followed by the chunk sealed under
  the file's own key.
- `filesystem/nodes/` — node names, attributes, media type guessing, child maps, node data and
  nodes with their byte formats; every format comes with a proof that what is written reads
  back as it was.
- `filesystem/drive/` — the tree of nodes held by a drive (`InnerDrive`), its byte format, who
  may access it (`DriveAccess`) and the directory operations (`DirectoryHandle`: `ls`, `cd`,
  `mkdir`, `mv`, `rm`, and `write` and `read` of file data, with the proof that what is
  written reads back).
- `stores/` — block stores and sync trackers, with in-memory implementations.

`app/` holds a small demonstration program that exercises the library and writes a drive to
disk.

Not covered: loading a drive from its complete serialized form (the signed header and the
drive keys escrowed to each actor's public key) and data blocks signed by their author. Drives
are built in memory; their node tree is written and read with `InnerDrive::encode` and
`InnerDrive::parse`.
