# gitgrapher

A code-graph indexer's core, written in Verus: the rules that decide which
files of a repository are indexed, how imports, calls and inheritance are
resolved across files, how the resulting graph is stored, queried, diffed
(files, symbols and links) and exported, each function stated by a contract
and proved.

What is not here: the language parsers (the library links parse results,
given as `ParseResult` values, but does not read source text), full-text
search, the MCP server's JSON-RPC plumbing, graph persistence, and the git
and file-system work around a diff or a benchmark.

Layout:

- `src/` — the verified library, one module per concern (`scanner`,
  `import_resolver`, `resolution`, `call_resolver`, `heritage_resolver`,
  `type_env`, `graph`, `linking`, `community`, `process`, `diff`,
  `matching`, `symbol_diff`, `queries`, `export`, `pipeline`, `mcp`,
  `error`, ...).
- `tests/` — tests run against the compiled library.
- `app/` — the command-line front end: directory walking, file reading and
  hashing, printing, the queries it runs on a freshly built graph (impact,
  search, export), and the floating-point parts (entry-point scoring,
  Louvain community moves, community cohesion) that the library does not
  hold.
- The symbol table keeps its definitions in insertion order in a `Vec`,
  where a concurrent map served the same lookups.
- Confidences are kept as whole thousandths (`u32`): an edge resolved at
  0.9 carries 900, and a heritage edge carries the integer square root of
  `950 * parent_confidence`, the geometric mean rounded down. A
  community's cohesion is kept the same way.
