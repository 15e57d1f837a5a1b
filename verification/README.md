# common

A kana–kanji conversion engine for live Japanese input, written in Verus.

## Layout

- `src/` — the library, verified by Verus. Every executable function states
  its result in `ensures`, over spec functions on `Seq`, `Map` and integers.
  - `text`, `romaji` — kana tables, romaji to hiragana, string helpers.
  - `dictionary`, `records`, `ipadic` — the reading trie, the connection
    matrix, the stored form of a dictionary and the readers of its sources.
  - `lattice`, `construct`, `viterbi`, `convert`, `nbest`, `context`,
    `scoring`, `learned` — lattice construction, the best-path search with
    learned preferences, several conversions and context-aware conversion.
  - `composition`, `incremental`, `session` — the state of what is being
    typed and the decisions of live conversion.
  - `typo`, `distance`, `fuzzy` — spelling corrections and edit distance.
  - `keys`, `keyroute`, `command` — the decisions of the keyboard front end
    and of command mode.
  - `live` — what a key does on the live conversion line of the
    command-line program.
  - `settings` — which alias and command entries the settings list shows,
    and in which order; what browsing to a script and saving the form do.
  - `llm` — the prompts for a local language model and the checks on its
    answers.
- `tests/` — tests of the library on concrete values.
- `app/` — the command-line program around the library: storage (SQLite,
  bincode), HTTP, dictionary building, and the scoring that uses floating
  point.

Public proof functions named `law_*` state the properties that hold across
calls (cheapest conversion, round trips, undo of candidate moves, ordering of
spelling corrections, prefix search, case of romaji input, text that no
rule reads left unchanged, no capitals in the output, lattice nodes read as the
span they cover, readings along a full path giving the input back).

## Tables keyed by text

The learned tables (`PairTable`, `WordTable`) and the romaji rule list are
vectors with a distinct-key invariant, viewed as maps. vstd's specification
of `HashMap` describes its contents only for key types that it states obey
its key model (integers, `bool` and boxes of them). With `String` keys a
`HashMap` verifies calls to `insert` and `get`, but nothing about the map's
contents follows from them, not even its length after one `insert`: the key
model for `String` could only be assumed, and this crate assumes
nothing, so a `HashMap` there would have contents that no contract could
state. The search list of the n-best search is likewise a vector, because
vstd does not specify `BinaryHeap`.
