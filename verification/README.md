# flboot

Bootstrap and dev-loop tooling for a decompilation project, with its logic as a
verified library. The command is `fl`.

`src/` is the library: everything between reading and printing, with contracts
that Verus proves.

| Module | What it holds |
| --- | --- |
| `model`, `manifest`, `maps` | configuration, download manifests, insertion-ordered maps |
| `flags`, `codegen`, `ninja`, `scan` | compiler flags, object paths and unit lists, build files, include scanning |
| `dev`, `rename`, `claims` | units and symbols, compile commands, claiming symbols and their history |
| `objdiff`, `gutter`, `render` | diff rows, branch arrows, side-by-side tables and listings |
| `measures`, `progress` | match measures and the report on them |
| `bootstrap`, `fetch`, `root`, `log` | tool resolution, delinking, hashes, repository root, log lines |
| `text`, `num`, `order`, `style` | text, numbers, sorting and terminal colors |

Each module's laws, which relate several functions, are its public proof
functions named `law_..`.

`app/` is the command around the library: arguments, files, processes, downloads,
archives, JSON, and the diffing engine with its floating-point scores. `tests/`
runs the library on concrete values.
