# media_manager

A planner and executor for tidying a media library: it reads file names and
what lies inside the files, works out where each movie, episode, track and
sidecar belongs, shows the plan, and carries it out without ever losing or
overwriting a file by accident. The library under `src/` is verified with
Verus; `app/` holds the command line, the real file system and the files on
disk.

## Layout

- `text`, `unicode`, `pattern`, `hashing`, `clock`: text and the few calls into
  other crates that the library makes.
- `domain/`: paths, volumes, configuration, identities, plans, templates, and
  the `FileSystem` trait with an in-memory implementation and one that injects
  faults. A file system is modelled by the tree of what stands where and by
  the calls that have been made.
- `parse/`: names of movies, episodes and tracks, and rendering them back.
- `engine/`: scanning, grouping, resolving, routing, validating and reconciling
  into a plan, one pipeline for each kind of media; `engine/journal` and
  `engine/exec/` carry a plan out. A journal is modelled by the entries that it
  keeps, and by the entries and plans that its store has taken.
- `app/`: `main`, the file system of the operating system, and the serialised
  forms of plans, settings and journals.

## What is proved

Every function says in its contract what it returns. Where the file system or
a prober decides, the contract says that there are answers with which the
result agrees, and a function beside it takes the answers as arguments.

Beyond single functions, `law_*` proof functions state what holds of the
library as a whole. Among them: nothing is moved out of the root, no two moves
of a plan collide, reconciling touches nothing that was not to be moved, no
step of an execution loses the bytes of a file, a source is removed only once
a copy of it has been made and found to be intact, nothing moves that the store
of the journal has not been told of, and a rendered movie name is parsed back to
what it was rendered from.

Some promises are made of a file system that is *steady*: one that does what it
is asked wherever what stands where allows it. On such a one it is said when a
call has to succeed, and so when a move, a directory or a plan does.
