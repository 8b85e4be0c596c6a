# okf-mcp

A knowledge base in plain files that a language model keeps. A *vault* is a directory:

- `raw/` holds snapshots of the sources that were taken in. They are never changed.
- `wiki/concepts/` and `wiki/entities/` hold Markdown pages that a model compiles from them.
- `.okf/` holds the manifest (which snapshot of each source is active, and which is
  compiled), the vault's configuration and its search index.

Sources are web pages or local files. What was compiled is checked (links, provenance),
repaired where that needs no judgement, bundled, and committed. A vault can be searched,
and explored as a graph in a browser. A client with a model of its own can do the compiling
itself, job by job.

## Layout

- `src/` is the library, verified with Verus. It decides and computes: nothing in it reads
  a file, opens a connection or asks a model. What stands on disk is handed in as values,
  what has to be done is handed back as values, and where outside work and decisions take
  turns, a state machine (`CompileRun`, `LinkFixRun`, `Finish`, `Commit`, `SynthesizeSession`)
  says what comes next. Properties that relate several functions are proof functions whose names
  begin with `law_`.
- `tests/` runs the library on concrete values.
- `app/` is the program around it: commands, files, the database, the index, models, the
  web server and the tools.

Calls into other crates that only compute (SHA-256, URLs, YAML and JSON fields, Markdown)
are made in the library, behind functions marked `external_body` whose comments say what is
taken on trust.
