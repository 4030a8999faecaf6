# envfind

Finds the managed Python environments of a machine (active, registry, `PATH`,
Conda, uv, pyenv, Poetry, Pipenv) whose interpreter can import a module or has a
distribution installed under a given name.

- `src/` is the verified library (Verus): the command line, the path rules that
  decide which interpreter paths are trusted and how they are normalized and
  compared, the merge of what the providers report, the parsers of `.condarc`,
  Conda's `environments.txt`, Poetry's `config.toml` and `reg query` output, the probe protocol (with the
  law that a printed result line reads back as itself), the matching of
  site-packages metadata, and the rendering of the result table.
- `app/` is the program around it: environment variables, the file system,
  running interpreters with a time limit, and the worker threads.
- `tests/` exercises the library.
