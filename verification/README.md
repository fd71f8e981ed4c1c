# gleam_project

Compiles the modules of a Gleam project. The library names each module after the
path of its source, orders the modules by their imports, has each one inferred with
the types of those before it, and lays out the files that are generated. Parsing,
type inference and code generation are handed in by the caller.

- `src/project.rs`: `compile`, step by step
- `src/registry.rs`: the modules and the imports between them
- `src/graph.rs`: the dependency graph, kept in a `petgraph` graph
- `src/source.rs`: which files are sources, by a `regex` pattern
- `src/path.rs`, `src/text.rs`: paths and text
- `src/model.rs`, `src/error.rs`: what goes in and what comes out
- `src/laws.rs`: what holds of every compilation
- `app/`: reading sources from disk and printing progress

Paths are held as Unix systems write them, byte by byte, and need not be valid text.
