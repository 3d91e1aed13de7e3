# deebee

A small graph database: a `Graph` owns `Node`s, each with an identifier
(a UUID kept as `u128`), a dynamic `Value`, and links to other nodes through
labelled `Arrow`s. Every link is bidirectional: when `a` links to `b` through
an arrow, `b` links back to `a` through the arrow's reverse.

The library in `src/` is written in Verus and verified:

- `arrow`, `node`, `graph`: the data model, the changes (`connect`,
  `disconnect`, `remove`, ...) and the queries (`find`, `neighbors`,
  depth-first `traverse`, ...), each with a contract over a mathematical
  model (`GraphModel`, `NodeModel`), and proofs that the changes keep the
  graph well formed.
- `value`, `convert`: dynamic values, their model, equality and conversions.
- `json`, `parse`: writing values as JSON and reading JSON back, both
  specified by spec functions; `roundtrip` proves that a plain value reads
  back as itself and that unescaping undoes escaping.
- `export`, `load`, `graph_roundtrip`: the JSON text of a whole graph, how a
  text is read back into a graph, and the proof that a graph's text reads
  back as the graph.
- `ids`: the text of UUIDs; random UUIDs and parsing come from the `uuid`
  crate behind small trusted wrappers.

Floating-point numbers are carried as their bit pattern and text; decoding
float literals while reading is left to the caller through a `FloatTable`
(the front end in `app/` fills one).

`app/` is a command-line front end that loads a graph from a JSON file and
prints it back.
