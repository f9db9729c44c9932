# flamingo

Shell prompt segments: the working directory, shortened by a configurable
strategy, and a one-line git status.

- `src/` — the library, verified with Verus:
  - `text`: characters, UTF-8 byte lengths, splitting and joining;
  - `parse`: white space, lines, unsigned numbers, decimal digits, replacement;
  - `config`: configuration types and their defaults;
  - `path`: path components and the truncation strategies, `~` for the home directory;
  - `git`: the git queries as a step function over the answers received, and the rendering of the segment;
  - `logger`: log levels, suppression of repeated log lines, log file naming and expiry;
  - `context`: which segments are shown and how they are joined.
- `app/` — the `flm` program: argument handling, reading the configuration
  file, running git, the log file and stderr output.
- `tests/` — tests of the library on concrete values.
