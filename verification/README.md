# ex_grapha_core

The core of a dependency-aware knowledge graph. Each node is a markdown file
with a YAML frontmatter block; a node is an axiom or a deduction that depends
on other nodes through a propositional relation over their IDs. When a node
changes, its downstream dependents are marked stale until reviewed.

## Layout

- `src/` — the library, verified with Verus:
  - `relation` — tokenizer and recursive-descent parser for relation
    expressions, operand collection and the operand/dependency check, and
    (`relation::laws`) what whitespace, brackets and `NOT` do to a tree;
  - `model`, `config`, `error` — the data model, configuration and errors;
  - `node_parser` — the frontmatter/body layout of a node file;
  - `graph` — adjacency lists, walks and reachability;
  - `project` — the in-memory knowledge base: loading, node and edge
    operations, staleness propagation, validation, external changes,
    the layout of a new project, and the laws that span operations;
  - `events` — notifications about external changes;
  - `order`, `text`, `util` — ordering, string helpers, node IDs and stamps.
- `tests/` — tests of the library.
- `app/` — YAML reading and writing, projects on disk, node files kept in
  step with the knowledge base, and the file watcher.

## Collections

The knowledge base keeps its nodes in a `Vec<Node>` whose invariant is that
no ID occurs twice, and its dependents as an adjacency list keyed the same
way; operand sets are duplicate-free vectors in first-seen order. The keys
are strings, and vstd states what a `HashMap` or `HashSet` lookup returns only
for key types whose hashing and equality it models (the integers and `bool`);
for `String` keys that would take an assumption, which this crate does not
make. A sequence with a stated invariant
lets every contract speak of the nodes as a `Seq` and a `Map` built from it,
and it makes iteration order, and with it the order of reported changes and
validation issues, deterministic.
