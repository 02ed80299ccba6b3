# note_idea

The rules of a note-taking program, verified with Verus.

- `src/todo` reads and writes to-do lines: a checkbox, a text, and markers such as
  `@2026-08-14 18:00`, `!daily`, `#tag`, `^ring` and `~a3f9` at the end of the line. What is
  written reads back, and the rest of the line stays as it is, but for the space before a
  marker that is taken out.
- `src/actor` changes files: lines that are added or replaced, edits given in UTF-16 offsets,
  paths that stay below the vault, and the queue that holds changes until they are on disk.
- `src/config`, `src/vault`, `src/db`, `src/window` and `src/commands` hold what is decided
  about settings, the layout of a vault, opening its database, the windows, and what the
  windows may ask for.
- `src/text`, `src/number` and `src/runs` are the ground that the others stand on.

`app` is the program around the library: files, the SQLite database, the writing task and the
windows.

Taken on trust, each with its claim written above it: `String::push`, the BLAKE3 hash,
`Path::is_absolute`, `Path::components` and the random numbers for identifiers.
