# dexdumper

The core of a DEX dumper for rooted Android devices, written in Verus. It reads DEX
files, puts together the chunks that probes deliver, looks for DEX files and ELF images
in the memory of other processes, finds the hook points of the Android runtime in
`libart.so`, and writes recorded bytecode back into dumped files.

- `src/` is the library. Verus proves the contract of every function in it but for the few
  that call outside code (see below).
- `app/` is the program around it: the command line, files, processes and eBPF probes.
- `tests/` runs the library on concrete values.

## Modules

| Module | What it does |
| --- | --- |
| `bytes`, `text`, `sort`, `hexcode`, `digest` | numbers in bytes, text, sorting, digests |
| `mutf8`, `dex` | the text encoding and the tables of DEX files |
| `fix` | applying recorded bytecode, coverage, the files of a directory |
| `arm64`, `elf`, `codescan`, `art`, `artnotes` | hook points in `libart.so` |
| `capture`, `events`, `state`, `names` | what a dump gathers from events |
| `scan`, `codeitem`, `native`, `maps` | scans of the memory of a process |
| `dump`, `cli`, `platform`, `shutdown` | the plan of a dump, options, packages, stopping |

A scan does not read memory itself. It names the next read and takes what the read gave;
its contract says what it finds in any memory whose reads were answered truthfully.

## Not proved

What the crates `hex`, `sha1`, `adler2`, `goblin` and `object` compute, and two functions
of the standard library, is stated in contracts that are taken on trust. Each stands above
a function marked `external_body` or in an `assume_specification`, with a comment on what
it claims.
