# Oracle

A launcher for local development projects: it finds projects on disk, starts and stops
them, watches their ports, logs, CPU and memory, checks remote deployments over HTTP, reads
their git status, and finds the icon each one serves.

The crate is in two parts.

- `src/` is the library, written in Verus. The launcher's rules are here, each proved
  against its contract: project discovery and naming (`discovery`), the
  configuration model and every change made to it (`model`, `config`), starting, port
  conflicts and exits (`runner`, `probe`), log buffering (`logs`), process trees and usage
  history (`monitor`), git output (`vcs`), health checks (`remote`), favicon lookup
  (`favicon`), the startup entry (`autostart`), the changelog (`changelog`), input and list
  rules of the window (`input`, `ui`), the decisions behind its screens (`screens`), the
  packing of the icon atlas (`atlas`), and what the frontend is sent and the web apps it
  shows (`views`). `text` and
  `sorting` hold the string handling and the stable sorts the rest is stated in.
  Public proof functions named `lemma_*` state the properties that hold across calls, such
  as that normalising the project order is idempotent or that a scan reports every
  directory once.
- `app/` is a command-line program around it: reading and writing files, running git and
  child processes, HTTP requests, the process table and the registry. Which directories
  are entered and reported, whether a start may go ahead on a port, which candidates are
  imported and what each outcome means are asked of the library; the program performs
  what it decides. The window, tray panel and renderer of the desktop launcher are not
  part of it: their drawing is floating-point GPU work, and the decisions behind them are
  the library's `screens`, `ui`, `input`, `atlas` and `views`. Around the library's
  decisions it keeps only the waiting: the walk over the disk is `discovery::walk_dir`,
  given the directory listing and file reads; the steps of a stop are `runner::stop_step`,
  with the program sleeping between them; a process tree's memory and process count are
  `monitor::tree_totals`, while its CPU share, a floating-point figure, is added up here.

`tests/` exercises the library on concrete values.
