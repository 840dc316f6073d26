# syncr

A small file-synchronisation service, written in Verus.

- `src/` is the verified library:
  - `text`: characters of strings, Unicode white space, trimming, splitting
    on a character, words, the four-space manifest separator, lossy UTF-8.
  - `number`: decimal `u64` text, as `str::parse` reads it and as zero-padded
    formatting writes it.
  - `proto`: the line protocol of the tokio server: requests
    (`line::Request::parse`), the newline framing (`codec::LineCodec`), and
    the file service (`service`): the manifest of file names and MD5 digests,
    base64 bodies, and the decision of how each request is answered.
  - `sync`: the plain-TCP synchroniser: the server's reading of messages and
    its manifest of file hashes, the client's messages and its decisions.
  - `client`: the line-protocol client's manifest reading and its own file
    digests.
- `app/` is the program around it: sockets, files, the tokio bindings and
  `main`.
- `tests/` runs the library on concrete values.
