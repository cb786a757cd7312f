# kipp

A private journal that is read and written over SSH. One user talks to a second
self, called kipp; what is said is kept in one encrypted file, the archive.

The key of the archive is kept nowhere. It is derived from a signature that the
user's SSH agent makes of a challenge in the archive's header, so a client has to
forward its agent (`ssh -A`) and hold an Ed25519 key. Only keys in
`authorized_keys` may connect, and only the key that the archive was made for can
open it. A client that connects while another is connected takes over from it,
with the text under edit and the place in the journal as they were left.

## The library

`src/` is verified with Verus.

| module      | what it holds |
|-------------|---------------|
| `slices`    | texts cut at byte offsets |
| `text`      | columns of text, line breaking |
| `plain`     | what the lines of a plain text hold |
| `editor`    | the text under edit and its cursor |
| `input`     | bytes of a terminal as keys and text |
| `bytes`     | numbers as bytes |
| `crypto`    | digests, ciphers, compression, chance, the key |
| `blackbox`  | the archive: header, frames, records, sessions |
| `agent`     | deriving the key from an SSH agent |
| `allowlist` | the keys that may connect |
| `hostkey`   | the key that the server is known by |
| `clock`     | dates, times of day, time zones |
| `config`    | what an operator can set |
| `view`      | the journal as rows, rows as text on a screen |
| `server`    | connections, and what keys do in a session |
| `chat`      | a session from its start to its end |

What the outside crates compute stands behind a few functions whose contracts are
believed, each with a comment that says what is claimed of the call.

## The program

`app/` is the program around the library: arguments, files, the SSH server, the
terminal.

    kipp [-c kipp.toml] [-d data] [-p port] [-b address]
