# DirWatch

DirWatch watches a directory and opens a live, read-only tail window for each `.log` or `.txt` file
(or each file that fits a pattern) that appears or grows.

`src/` is the library: everything the program decides, written in Verus with contracts that are
proved. `app/` is the program around it: windows, threads, files. `tests/` runs the library.

| Module | What it does |
|---|---|
| `cli`, `launch`, `build_info` | the command line, and what a start does |
| `glob`, `fskey`, `os`, `paths` | names of files and directories |
| `walk`, `watch`, `schedule`, `runtime` | finding out what became of the files, and when to look |
| `session`, `settings`, `notes`, `layout` | the tracked files, and how they are shown |
| `encoding`, `buffer`, `utf8text`, `search`, `render`, `visible`, `tailwin` | the tail of a file |
| `gui`, `placement`, `blink` | what every event in a window leads to |
| `applog`, `bench` | logs, and a measurement of the search |
| `strings`, `table` | texts, and values by name |

Each module says in spec functions what its values are, states its contracts over them, and ends
with the laws that hold of them, as public proof functions.

The library calls the standard library for the case of letters, `encoding_rs` for its codecs, and
the clock for the measurement; the few functions that do so say what they take for granted.
