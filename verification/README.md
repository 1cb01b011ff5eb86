# arid

A duplicate-code detector for Python projects, with its core written in
Verus and proved against its contracts.

## Layout

- `src/` — the verified library. Normalized source files are laid out as one
  token corpus (`corpus`), a suffix array and LCP array are built over it
  (`suffix`), and the repeated LCP intervals become duplicate groups
  (`detect`). Around that core stand the baseline of accepted debt
  (`baseline`, `baseline_filter`, `baseline_status`), finding fingerprints
  (`fingerprint`), report building and rendering (`report`, `summary`,
  `text`, `markdown`), configuration merging (`config`), command-line
  validation (`cli`, `invocation`), path rules (`paths`, `focus`,
  `path_explanation`), suppression directives (`analysis`, `suppression`,
  `normalize`), and the decisions of a scan and its exit status (`scan`,
  `exit_policy`, `outcome`).
- `tests/` — tests of the library on concrete inputs.
- `app/` — the command-line program: argument parsing, file discovery and
  reading, the Python parser, serialization, and writing output. It hands
  plain values to the library and acts on what it returns.

## Exit codes

| Code | Meaning |
| --- | --- |
| 0 | The scan completed and no finding failed it. |
| 1 | Findings (or active, or with `--fail-on-stale` stale, baseline debt) were reported. |
| 2 | An invocation, configuration, parsing or internal error. |
