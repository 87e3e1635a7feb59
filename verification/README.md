# weave-core

A three-way merge of source files by their entities: functions, classes, keys. It
reads three versions of a file, pairs the entities across them, decides each one,
and writes one text, with typed conflicts where the two sides cannot both be kept.

The library under `src/` is verified with Verus. Its contracts are stated over
sequences of characters and over mathematical models of the stages; the laws that
relate several functions stand beside them as public proof functions.

| Where | What |
|---|---|
| `text`, `order`, `token` | lines and words, sequences and their placement, tokens |
| `binding` | names: definitions, calls, footprints |
| `patch`, `diagnose`, `subsumption` | edits of one side, their alignment, their nesting |
| `conflict`, `readback`, `frame`, `coalesce` | conflict boxes: written, read back, resolved, joined |
| `expression`, `container` | merges inside a statement and inside a container |
| `v2` | the pipeline: match, classify, resolve, bind, plan, render |
| `grammar`, `json_layout`, `entity`, `region` | which texts a parser is asked about, and what it reports |
| `merge`, `explain`, `validate`, `stats`, `git`, `host` | results and what is told about them |

`v2::file::merge_file` is the whole merge of one file. What only a reader of the
language can say (the regions of a text, the name of a member, a statement merge) is handed
to it as plain values, and it is verified for every such answer.

Text is line-diffed and line-merged by `diffy` and parsed by `sem-core`; both stand behind trusted
items, in `patch` and in `grammar`. Nothing is claimed of what they return but what
their doc comments say.

`app/` runs processes, keeps files and serialises. `tests/` runs the library.
