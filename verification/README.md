# pwd-interface

A small service for moving a folder in and out of a play-with-docker
instance, with its decisions verified by Verus.

- `src/token.rs`: random tokens, salted SHA-512 digests, and time-salted
  digests that are accepted within one thirty-second interval of their
  making; with the laws of acceptance and expiry.
- `src/text.rs`: hexadecimal rendering, prefixes before a separator.
- `src/command.rs`: the client's prompt language and session settings.
- `src/upload.rs`: the upload server's credential check and reply listing.
- `src/walk.rs`: the depth-first walk that picks the files of a bundle,
  the ignore rule, and relative paths; with the law that the walk visits
  exactly the files of the tree.
- `app/`: the three programs (client, bundle server, upload server): terminal,
  file system, archives and HTTP.
