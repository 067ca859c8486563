# trace

Analysis of GPU traces in the Chrome trace format, written in Verus.

- `analyze` compares kernel execution times across traces in a markdown table.
- `merge` puts several traces into one, CPU processes before GPU processes.
- `convert` turns an nsys report into a Chrome trace.
- Trace files can be listed and downloaded from remote hosts over ssh.

## Layout

- `src/` is the library: what the commands compute, with contracts over mathematical models, all of
  it verified. Calls into `serde_json`, `flate2` and the parts of the standard library that have no
  specification stand behind small trusted functions, each with a comment on what is claimed of it.
- `app/` is the program around it: arguments, files, the database, ssh and scp, progress, and
  floating-point arithmetic.
- `tests/` runs the library, and holds it against `serde_json`, `flate2` and the standard library.

## Modules

| Module | What it holds |
| --- | --- |
| `events` | the events of a trace, and the kernels that they ran |
| `kernels` | kernel identifiers, their order, and how shapes are written |
| `table` | statistics of durations, and the comparison table |
| `merge` | merging traces |
| `convert` | converting nsys reports |
| `remote`, `download` | ssh URLs, listings, and the steps of a download |
| `outputs` | where results are written |
| `util`, `path`, `json` | file contents, paths, JSON documents |
| `order`, `size`, `text` | stable sorting, file sizes, texts |

A duration is a floating-point number, which the library does not compute with. There it stands by
its position, and by a rank that orders it among other durations.
