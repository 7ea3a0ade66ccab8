# avet

The decisions behind an automatic AV1 encoding service, as a verified library.

The service watches a folder of profiles, encodes each video it finds in chunks and puts the
result together again. What it decides on the way stands in `src/`, where Verus proves it:

- `av1`, `mkv`, `hevc`, `rpu`, `hdr`: reading and rewriting bitstreams and containers, and the
  HDR metadata that they carry.
- `scene`, `encode`, `target_quality`, `workers`: splitting a video, running an encoder on a
  part, searching for the quality it needs, sharing out the machine.
- `audio`, `subtitle`, `source`, `crop`, `interlace`: what is taken from a source, and how.
- `config`, `scanner`, `resume`, `job`, `daemon`, `ext`: profiles, the queue, what is kept of
  a stopped job, the steps of a job, the service itself and the tools it calls.
- `text`, `path`, `bytes`: strings, paths and numbers.

Contracts speak of what a call returns for every input. The functions named `law_…` state
what holds across calls.

`app/` runs the tools, reads and writes files, and does the floating point. `tests/` runs the
library on examples.
