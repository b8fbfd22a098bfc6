# rust_bash

The core of a sandboxed shell's virtual filesystem and interpreter
helpers, written in Verus: every function in `src/` carries a contract
that Verus proves.

## Layout

- `src/vfs/paths.rs`: VFS path normalization, joining and resolution
  (always `/`-separated, independent of the host).
- `src/vfs/overlay_tree.rs`: the overlay's in-memory upper layer, a tree
  of files, directories, symlinks and whiteouts, with its model as
  sequences and the laws of descent, attachment, whiteouts and directory
  creation.
- `src/vfs/overlay_resolve.rs`, `src/vfs/overlay.rs`: symlink resolution
  through both layers, write targets, merged listings, the change set
  (`diff`) and its synchronization with the disk.
- `src/vfs/overlay_ops.rs`, `src/vfs/overlay_move.rs`: the overlay's
  filesystem operations (read, write, append, remove, mkdir, chmod,
  links, rename, copy, ...). The lower layer is never touched here: each
  operation asks it through probe closures (does a path exist, what is
  its kind, its bytes, its listing), and the contracts say what holds for
  whatever the probes answer.
- `src/vfs/glob.rs`: glob expansion: the pattern made absolute, the
  directory walk (`**`, hidden names, the result cap) over listing and
  matching probes, the sorted and deduplicated result, made relative to
  the working directory for a relative pattern.
- `src/vfs/readwrite.rs`: the configuration of the host passthrough
  filesystem, the lexical normalization of host paths and the
  confinement of paths to its root.
- `src/interpreter/arithmetic.rs`: the scanners and checks of the shell's
  arithmetic front end (quoted associative subscripts, validation,
  number literals, operators).
- `src/interpreter/eval.rs`: the arithmetic evaluator (wrapping `i64`
  arithmetic, assignments and increments, short-circuit operators,
  indexed and associative array elements, names whose values are
  evaluated in turn) over the library's model of the shell's variables;
  the text is parsed by brush-parser behind one trusted wrapper.
- `src/interpreter/analysis.rs`: the command names a parsed script may
  run, over the library's own model of the script's syntax tree.
- `src/python/`: the decisions of the sandboxed Python runner's bridge to
  the VFS (open flags, directory paging, errno mapping, file reads,
  writes, seeks and truncation, run budgets and verdicts).
- `app/`: what the library cannot hold: disk access for the overlay's
  lower layer and the host passthrough, the WASI host objects and the
  WebAssembly runtime, and the conversion from the shell parser's syntax
  tree.
- `tests/`: the tests, run against the compiled library.
