# whenfs

Time is a directory: a read-only file system whose first path component is a
time expression, a daemon that records which process changed which file, and
tools that ask the two of them who did what, why, and how to undo it.

The rules live in `src/`, as a Verus library. Every function there is proved
against its contract, but for the few that only call what others wrote: their
contracts are believed, and listed below. The programs around the library live
in `app/`.

| | |
|---|---|
| `text`, `number`, `order`, `path`, `bytes` | texts, numbers, orders, paths and bytes |
| `calendar`, `time_expr` | the calendar, and which snapshot a time expression leads to |
| `graph`, `history`, `lineage`, `retention` | the causal graph: recording, asking, pruning |
| `graph_laws` | what holds of the graph as a whole |
| `proctree`, `daemon` | the processes known, and what is stored when one of them writes |
| `fanotify`, `connector` | what the kernel reports, in bytes |
| `json`, `audit` | the audit log, and questions to it |
| `revert`, `undo` | planning the undo of a traced command, and carrying it out |
| `trace` | how a traced command is waited for |
| `report`, `args` | what the query tool says, and what it is asked |
| `mount` | inodes, lookups and listings of the mounted file system |

What is believed:

- in `calendar`, the calendar, the clock, the time zone and the text forms of
  chrono, behind eight wrappers;
- in `text`, three functions of the standard library: `String::push`,
  `char::from_u32` and `String::from_utf8_lossy`.

The laws are public proof functions. Among them:

- a plan undoes each path once, to its state before the first touch, restores
  before it removes, and removes children before their parents;
- an event is bound to an incarnation of its pid that was alive, where there
  was one, and a prune changes the writer of no retained event;
- the manifest of a command holds the writes of its descendants and of no other
  process; a child belongs to the incarnation of its parent's pid that lived
  when it was born, and to each of them only where none is known to have lived
  then;
- what the daemon writes to the audit log is what is read from it, whatever the
  paths and the command lines hold;
- where a process is stored, so is every known ancestor of it, unless a chain
  of parents is longer than the bound on it or a pid has been recycled.

`app/` is one program under four names: `whenfs`, `whodidd`, `whodid` and
`chronicle`. It keeps the graph in SQLite, mounts with FUSE, and talks to
fanotify and the process connector.
