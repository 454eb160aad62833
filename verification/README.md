# aorist

The core of a constraint-driven data-pipeline generator, verified with Verus.
A universe of concepts (data sets, assets, encodings, access policies) carries
constraints; the library works out which constraints apply, in which order
they can be satisfied, which program satisfies each, how equal tasks are
merged and what each task is called, and renders the pieces of code
(syntax trees, SQL column definitions) that the generated pipeline is made of.

## Layout

- `src/` — the verified library (Verus). Main modules:
  - `ancestry` — ancestors and family trees of concepts, grouping by type,
    attaching constraints to their roots;
  - `builders` — discovering and ordering the constraint builders a run needs;
  - `struct_builder`, `concept_derives` — how a concept type's fields are
    sorted and which traits it derives;
  - `constraint_state`, `task_graph`, `blocks`, `satisfaction`, `task_blocks` —
    the constraint graph: pruning dummy tasks, scheduling blocks,
    satisfying constraints, merging and naming tasks;
  - `code_blocks` — the standalone tasks of each code block, split by
    dialect, the task values that later blocks depend on, and the whole run
    from unsatisfied blocks to code blocks;
  - `ast`, `ast_compare`, `extract` — the syntax trees of generated code;
  - `attributes`, `dialect`, `concepts`, `access`, `dataset`, `context`,
    `ancestor_record`, `strings` — the data model;
  - `linked` — the insertion-ordered collections (`linked_hash_map`,
    `linked_hash_set`) the library uses, with contracts over their contents.
- `tests/` — tests of the library.
- `app/` — the parts around the library that need floating point or the
  types of `sqlparser`.
