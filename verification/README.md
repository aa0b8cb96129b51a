# rwave

A command-line tool for looking into RTL simulation waveforms (VCD, FST, GHW),
with its logic written and proved in Verus.

```
rwave [--json] [--limit N] [--verbose] <command> <file> [options]
rwave --batch [--json] <file> [global-opts] < commands.txt
```

## Layout

* `src/` is the library, verified throughout. It reads no files and does no
  floating-point arithmetic.
* `app/` is the program around it: arguments, files, standard streams, the
  conversion between ticks and seconds, and the `wellen` and `fst-reader` crates.
* `tests/` runs the library on concrete values.

From the bottom up, the library consists of

| modules | what they hold |
|:--|:--|
| `text` `number` `order` `json` `json_text` `limbs` | strings, numerals, stable sorting, JSON and its text, big numbers |
| `format` `condition` `filter` `time` | showing values, search terms, name patterns, times |
| `bitstr` `history` `handles` `signal` `decl` | values, change histories, the signal table, declarations |
| `backend` `memory` `fold` `plugin` `collect` `seek` | what a reader offers, a reader in memory, folding reported changes, window reads |
| `model` `replay` `sweep` | the open waveform, merging changes in time order, sweeping conditions over them |
| `select` `report` `resolve` `clauses` `hierarchy` | choosing signals, explaining the choice, resolving names, scopes |
| `dump` `snapshot` `compare` `list` `info` `activity` `summary` `search` `search_rows` `tree` `design` `endpoints` `trace` | the commands |
| `cli` `invocations` `commands` `batch` | command lines and their laws, dispatch, batches |

The contracts speak of mathematical models: a waveform is a signal table with a
history for each signal, a command is a function from it and the parsed options
to the text it writes. Public `proof fn`s state what holds across functions, for
instance that the result of a command in a batch is what the command writes when
it is run alone, that a window read finds the window of the full history, that
the rows of a search take in exactly the ticks at which the condition holds, or
that no two JSON values have one text.

## What is not proved

* `text`: the contracts of `String::push`, `String::push_str` and
  `str::to_lowercase`.
* `bitstr`: those of `str::from_utf8` and of the `Debug` format of a string.
* `handles`: those of the `rustc-hash` map.
* That the readers and timescales in `app/` keep the contracts of `WaveformBackend`
  and `Timescale`.
