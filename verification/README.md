# visugps2

The audit and cleaning core of VisuGPS2, a desktop tool that checks GPX
traces for out-and-backs, loops, isolated points and roundabouts, lets the
user correct them (deletion, routing, false positive, undo) and writes the
corrected GPX back with an audit block.

- `src/` is the library, written in Verus: its functions carry contracts and
  are proved against them, except a few trusted wrappers (in `patterns` and
  `text`) whose contracts are taken on trust: the calls into `regex`
  (compile, replace, capture, find), into `gpx` (reading a document), into
  `chrono` (formatting a timestamp), and into std (`String::push`, the system
  clock). The correction engine (`corrections`), the laws
  that relate its operations (`laws`), the numbering of findings
  (`pipeline`), the rewritten GPX (`export`), the cleaning bookkeeping
  (`cleaning`), the deletion preview (`preview`), the interval logic of the
  loop detector (`loops`, `labels`), the execution-mode registry
  (`gestion_mode`), the choice of a screen (`display`) and the file layout of a mode (`paths`, `archive`,
  `edition`, `migration`). Coordinates are carried as the bit patterns of
  their binary64 values; what computes with them is not in the library.
- `app/` is ordinary Rust around it: file I/O, the serialized forms of the
  types, and the geometric detectors, which compute in floating point.
- `tests/` runs the library on concrete values.
