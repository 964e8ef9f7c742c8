# contribution_showcase

`contribution-showcase` scans several git repositories and writes a one-page
HTML report of the contributions made to them: commits by Conventional Commit
type, changed lines over time, per-project figures, archived OpenSpec
proposals and test metrics.

## Layout

- `src/` — the library, written in Verus. Every rule of the report lives here
  with its contract, and the contracts are proved. What `std::path` does
  (joining, parents, file names) is stated only where it is the same on
  every platform: directories written with `/` and without a drive letter,
  `\` or a leading `//`, and relative paths without a drive letter or a
  leading separator; elsewhere the library states what it hands to
  `std::path` and what it does with the answer. What `chrono` computes is
  named, together with the calendar facts its source shows (the days it
  holds form one range, a date's text names one day, ISO weeks run Monday
  to Sunday, months never go back).
  - `text`, `number`, `order` — the string, number and sorting primitives the
    rest is stated over;
  - `commit`, `gitlog` — Conventional Commit subjects and `git log` output;
  - `config`, `filter`, `paths` — the settings, their checks, the command-line
    overrides and the filters;
  - `proposals`, `testmetrics` — OpenSpec archives and test metrics;
  - `dates`, `timeline`, `breakdown`, `report` — the figures of the report;
  - `page` — escaping and the page assembled from its template.
- `app/` — the command line: it reads the configuration file, runs git, walks
  the repositories, computes the floating-point shares and writes the page.
- `tests/` — tests of the library.

## Usage

```bash
contribution-showcase init               # writes showcase.toml
contribution-showcase generate           # writes dist/index.html
contribution-showcase generate --since 2025-01-01 --types feat,fix
```
