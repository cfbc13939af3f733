# babu

The command-handling core of an offline voice assistant, written in Verus.

`src/` is the verified library:

- `text` — characters of strings, whitespace as `char::is_whitespace` sees it,
  trimming, word splitting and phrase normalization.
- `similarity` — how alike two character sequences are, from `seqdiff`'s
  alignment, as an exact fraction; overflow-free comparison of fractions.
- `commands` — commands and command packs, lookup by identifier, legacy YAML
  packs (whose identifiers are proved distinct), pack collection, what running
  a command amounts to, and the script a Lua command runs.
- `learned` — phrases taught as aliases of commands: learning and lookup, with
  the laws that a taught phrase is found again, that re-teaching replaces,
  that one alias is kept per language and phrase, and that aliases in other
  languages are ignored.
- `hash` — the fingerprint of the loaded commands (SHA-256 over a stable sort
  by identifier), with the law that it ignores the order packs were read in.
- `matching` — the integer parts of fuzzy phrase matching: placeholder
  templates (proved indifferent to word order and never lowered by more
  words), best word overlaps, and the choice among scored candidates.
- `system` — finding the assistant's process, its memory use, the processor
  temperature sensor, and script log levels.

`app/` holds what the library cannot: files, processes, system statistics,
the scripting API and the running of Lua scripts, serde copies of the
library's types, and the floating-point phrase scores.
