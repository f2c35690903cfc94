# file_sorter

Finds duplicate files and duplicate folders, and moves the surplus copies to the
trash or to another place. A scan can be stopped and resumed, and its results are
kept for later. There is a command line and a window.

## Layout

- `src/` is the library. Every function in it has a contract that Verus proves:
  which files a walk reports, how they are hashed and compared, which groups and
  folders come out, what is kept between runs, and what a removal may touch. It
  does no input or output. A caller performs the steps that it asks for, and
  hands back what happened.
- `src/walk_laws.rs` states what holds of a walk as a whole, over a directory tree at
  rest: it ends even where links lead back up, reports each directory and each file
  once and under one path, and goes on with what was left where it is stopped and taken
  up again.
- `src/guarantees.rs`, `src/scan_laws.rs`, `src/folder_laws.rs` and
  `src/folder_copies.rs` state what holds of a scan as a whole, for files at rest and
  digests that do not collide: all duplicates are found and nothing else; every folder
  that has a copy is reported or lies in one that is, each in one group, and no group
  whose folders all lie in others; and whatever is removed of what was found, a copy of
  every file stays. `src/tree_laws.rs` states it of a scan of a directory tree.
- `src/resuming.rs` and `src/interruptions.rs` state that a scan of a directory tree at
  rest may be cancelled, saved and resumed any number of times, at any point of the
  walk, of the hashing and of the comparing, and comes to the same result.
- `src/reuse_laws.rs`, `src/store_laws.rs` and `src/session_laws.rs` state what holds
  from one run to the next: when a saved scan still stands and what it replays, which
  runs are kept, and that whatever is picked in the window a copy stays.
- `app/` is the program around it: the command line, the window, the database,
  the file system and the threads.
- `tests/` runs the library on concrete values.

What is believed without proof is the behaviour of SHA-256 (`sha2`), of
`serde_json` on lists of texts, of `num_cpus`, and of a few text functions of the
standard library. Each such item is marked `external_body` or
`assume_specification`, with a comment that says what is claimed.
