# sanemark

A Markdown language server and command-line tool: GFM table and list
formatting, reference-link conversion, broken-link diagnostics with quick
fixes, path completion, quick date/time and file-link snippets, navigation,
folding, an outline and daily notes.

## Layout

- `src/` is the library, written in Verus: every function carries a
  contract, and all but the thin wrappers around outside crates (ropey,
  markdown, chrono, nucleo-matcher, globset, percent-encoding,
  jsonc-parser and a few of std's string functions), whose contracts are
  trusted, are verified. It covers document analysis, the formatters,
  link resolution, position conversions, completion ranking, diagnostics,
  navigation, the configuration layers, the commented default
  configuration, the clipboard tool order and the command-line parser.
- `app/` is the binary around it: the LSP transport, the command-line
  runner, filesystem walks and lookups, running the clipboard tools, and
  the serde form of the settings.
- `tests/` exercises the library on concrete inputs.

## Usage

```bash
sanemark                 # serve the language server over stdio
sanemark format --write .
sanemark inline notes.md
sanemark lint .
sanemark config          # every option with its default, as JSONC
```
