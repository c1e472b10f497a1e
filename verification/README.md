# ril

A pipeline runner for CPU-bound Python: a `rilfile` such as

```
load data.csv +2000 | clean.py | featurize.py x4 | save output.csv
```

runs each stage as its own process, streams Arrow record batches between
them, and splits each batch of a script stage across several worker
processes.

## Layout

- `src/` is the verified library (Verus). It holds the pipeline grammar and
  parser, the plan the orchestrator follows, the reading of the stages'
  stderr lines, the proportional sharing of cores among stages, the splitting
  of a batch across workers and the reassembly of their results, the
  profiling of a stage's first batches, the rule that a script stage keeps
  its first output schema, the progress line, the setup commands, and the messages
  the tool prints. Each public function states its result in its `ensures`;
  the laws that relate several functions are public proof functions
  (`lemma_*`).
- `app/` is the `ril` command around it: processes, pipes, files, Arrow I/O
  and the embedded Python interpreter.
- `tests/` runs the library on concrete inputs.
