# evfs

A virtual file system: a url may lead through directories, servers and zip archives, and
archives inside archives, to the file that is loaded. Drivers are mounted where they are
met on the way.

- `src/` is the library, verified with Verus. It holds what is decided: how a path is taken
  apart, the tree of nodes, the steps of a load (`loader`), what whole loads come to whatever
  the drivers answer (`resolve`: where no driver is mounted on the way of a path, and where
  one is), what loads leave behind for those that follow (`repeat`), which drivers there are
  and what they are asked (`driver`), and the rules of the drivers for disks, archives and
  servers. Archives are read with the `zip` crate, and what is taken for granted of it
  stands in `archive`.
- `app/` is ordinary Rust around it: the worker thread, its messages, and the input and
  output of the drivers. It asks a `Loader` for its next action, performs it, and hands back
  what came of it.
- `tests/` runs the library, with a disk in memory.
