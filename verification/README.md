# atelier

The core of the Atelier text editor, verified with Verus.

`src/` is the library. Its functions carry contracts that Verus proves;
the few small wrappers that call `crop`, tree-sitter or std directly carry
contracts that Verus takes on trust, each stated from the called library's
source or documentation:

- `text`, `rope`, `document`: byte offsets, ranges and revisions, and a
  document whose text lives in a `crop` rope, with line and character
  navigation over UTF-8 and CRLF;
- `editor`, `lines`, `search`, `addons`: selections, caret motion, editing
  commands, find and replace, bracket matching, and an undo history whose
  laws (undo then redo, redo then undo, edit then undo) are proved;
- `symbols`, `tags`, `syntax`, `changes`, `highlight`, `languages`,
  `parsing`: the symbol graph built from a tags query's matches, syntax
  trees, the edit an incremental parser is told about, highlight spans, and
  the tree-sitter session that parses each new revision of a document and
  keeps its tree and symbols current;
- `project`, `registry`, `paths`, `files`, `workspace`, `shell`, `layout`,
  `utf16`: project trees, recent projects, file names and icons, open tabs,
  the shell's leave/save decisions, display rows and UTF-16 offsets.

`app/` is the program around it: reading and writing files and the registry
(`toml`, `serde`, `tempfile`, `directories`), and the scrollbar geometry,
which is floating point.

`tests/` runs the library on concrete inputs.
