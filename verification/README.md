# rill

The verified core of a terminal session kernel and its attach client.

- `src/` is the library, proved by Verus against its contracts; the few
  calls into std that vstd does not specify (building a `String` from
  chars, UTF-8 decoding, three `Path` operations) sit behind small trusted
  wrappers whose contracts state what std documents. It holds the framed
  attach protocol and its stream decoder (`attach`,
  `wire`), the kernel's bounded byte history, per-session attach state
  machine, session graph, checkpoints, journal and content/transcript
  records (`kernel`), the content plane's ledger, retention policy,
  redaction, source ranges and timeline (`content`), the host's cold-socket
  request and reply formats (`host`), the client's attach state (`client`),
  the look-file grammar and theme overlay (`look`), and the scrollback
  viewport (`viewport`, `chip0`).
- `app/` is ordinary Rust around it: the PTY and child process, the live
  leaf map, the look and host-surface files on disk, the cold sockets and
  the attach socket. It asks the library for every decision and performs
  the system calls the library names.
- `tests/` exercise the library from outside.
