# bytebarrage

Files are cut into pieces of 1 MiB, each named by the BLAKE2b-512 digest of its
bytes; a manifest lists the pieces of a file. Servers index the files of folders
by piece, answer UDP broadcast requests for pieces they hold, and serve piece
content over TCP. A downloading client looks for peers that hold each missing
piece, fetches it, checks it against its digest, and blacklists peers that fail.

- `src/` is the verified library: piece references (`piece`), manifests
  (`manifest`), the piece index (`directory`), the decisions of the discovery
  protocol (`discovery`) and of the download protocol (`download`), and message
  framing (`rmp_codec`), over a map from piece references kept in hash
  buckets by the first bytes of the digest (`table`).
- `app/` holds the command-line tools, the sockets and event loops, file reading
  and writing, and MessagePack encoding of messages.
- `tests/` exercises the library on concrete values.
