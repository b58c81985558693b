# net_use

`net-use` watches which remote networks one macOS app talks to: it finds the
app's processes, reads the remote addresses of their sockets, and lists the
IPv4 `/24` and IPv6 `/64` subnets (and the full addresses) as they appear, so
that a firewall allow-list can be assembled.

The project has two parts.

- `src/` is the library, written in Verus and verified: address masking and
  text forms (IPv6 in its canonical form), the aggregation that reports each
  subnet once, app discovery from `Info.plist` bytes and a snapshot of the
  process table, the process tree of a target, the monitoring engine's
  decisions, and the state of the two screens (filtering, selection,
  display and order modes, scrolling, saved history per target), the
  registry of monitoring sessions (monitored or paused targets), and the
  JSON text of the address history file, whose reader accepts exactly the
  texts its writer produces. Each public function has a contract over spec
  functions; the `law_*` proof functions state properties that span
  several calls.
- `app/` is the program around it: command-line parsing, the libproc calls
  that read the process and socket tables, the directory scan for app
  bundles, the polling tasks (one per monitored target), terminal drawing,
  reading and writing the history file (by default
  `/tmp/.net-use-address-history.json`, or the file `--data-file` names),
  export to a file and copy to the clipboard.

The tests under `tests/` run the library with the real `plist` crate.
