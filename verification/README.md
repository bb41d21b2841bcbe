# K.I.T.T. Memory

A persistent local memory engine: structured memories with a namespace, a workspace, a
sensitivity and a validity; bounded recall with deterministic ranking; prompt baselines that keep
to a token budget; conservative consolidation; and shared knowledge (corrections, concepts, typed
links).

The library under `src/` is verified with Verus. It holds every rule and no input or output:

| Module | What it holds |
| --- | --- |
| `text`, `order`, `find` | words, normal forms, the order of texts, stable sorting, first matches |
| `single`, `arith` | single-precision numbers by their bit patterns: order and arithmetic |
| `kinds`, `sensitivity` | kinds, scopes, statuses, sensitivity levels, what may leave the machine |
| `hash`, `ident`, `clock`, `json` | SHA-256 digests, random identifiers, the time, stored lists |
| `memory`, `table` | memories, their validity, and a table of them with all its operations |
| `ranking`, `keyword` | similarity, retention, merge assessments, term scores |
| `recall` | full-text queries, candidates, their scores, what a recall returns |
| `baseline` | the memories that a prompt starts with, within a budget |
| `consolidate`, `import` | exact duplicates, and the memories of a legacy agent history |
| `knowledge`, `learn`, `graph`, `ledger` | corrections, concepts, links and neighborhoods |
| `database` | what is done about the database file and its schema |
| `store` | what stores offer |

What the library promises as a whole is stated and proved next to the functions it is about, as
public proof functions: that no operation lowers a sensitivity, that no content is in use twice in
a workspace, that a recall returns only what its query admits, that recent use is rewarded, that
baselines fit their budget and do not depend on the order of the rows, that importing a history
twice changes nothing, that neighborhoods are exact, bounded and safe on cycles. The promises on
stored rows are about `MemoryTable` and `KnowledgeTable`, which hold them in memory. The SQLite
store takes its decisions from the same steps; its tables are SQLite's own.

Scores are single-precision numbers. The library holds them by their bit patterns and does its own
arithmetic on them, rounded to nearest as IEEE 754 says, so that what a score is and how scores
compare is stated and proved. The one thing that it takes from outside is the natural logarithm of
a memory's use. Everything that reads or writes the SQLite file stands in `app/`, the migration
tool:

```bash
kitt-memory-migrate /path/to/legacy_agent_history.db ~/.config/kitt/assistant/memory.db
```

`tests/` runs the library on concrete values, with the outside crates linked.
