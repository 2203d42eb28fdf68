# slipcheck

Audits tar, tar.gz and zip archives for extraction hazards — path traversal,
absolute names, symlink escapes, setuid bits, name smuggling, decompression
bombs — before anything is extracted. The library is written in Verus: what
each function returns is stated in its contract and proved.

## Layout

| Module | What it holds |
|---|---|
| `bits`, `huffman`, `inflate` | DEFLATE decompression |
| `gzip` | gzip members, CRC-32 and length checks |
| `bytes`, `text` | little-endian fields, number rendering and parsing |
| `tar`, `zip` | metadata-only archive readers |
| `format` | format detection by content |
| `paths` | classification of names against the extraction root |
| `entry`, `findings` | the data model |
| `audit` | the replay of entries that raises findings |
| `scan` | bytes in, report out |
| `report` | human-readable and JSON rendering |
| `json` | how JSON is read; the rendered document is held against it |
| `cli` | argument parsing, output and exit codes |

Each `*_laws` module states and proves what holds across the functions of its
neighbour: that a truncated stream is never a shorter success, that no header
of an archive is skipped, that a normal form is stable, that the JSON document
reads back as what was found, and that a run which passes leaves every entry
inside the root by its normalized name.

`app/` is the command itself: it reads files and stdin, and writes to the
terminal. `tests/` runs the library on concrete archives.

## What is trusted

Three functions of the standard library are used under a stated contract
(see `text`): `String::push`, `String::from_utf8_lossy` and
`str::to_lowercase`.
