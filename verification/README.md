# loglint

A validating parser and pretty printer for a plain-text structured log line
format, written in Verus:

```
TIMESTAMP LEVEL MODULE: MESSAGE [| FIELD FIELD ...]
```

Strict mode rejects every deviation from the grammar; lenient mode recovers
what it can (a bad timestamp becomes a run of dashes, an unknown level is kept
as text, a module without its colon is taken whole, malformed fields are
skipped and a repeated key keeps its last value).

## Layout

- `src/text.rs`: character classes, UTF-8 widths, decimal rendering, string
  building.
- `src/timestamp.rs`: `YYYY-MM-DDTHH:MM:SS.mmmZ` timestamps, their range
  checks and their text.
- `src/names.rs`: identifiers and dotted module names.
- `src/fields.rs`: the field list: tokens, `key=value` pairs, escapes.
- `src/parser.rs`: one log line, in either mode.
- `src/pretty.rs`: the aligned rendering of parsed entries.
- `src/lint.rs`: a whole file: lines, diagnostics, output and exit code.
- `src/laws.rs`: properties across functions and modes (lenient mode accepts
  what strict mode accepts, rendered fields and lines read back, keys stay
  distinct, ...).
- `app/main.rs`: the command line (`loglint [--lenient] <file>`).

Every executable function in `src/` carries a contract that states its result
exactly, as a function of its input, over the spec functions beside it.
