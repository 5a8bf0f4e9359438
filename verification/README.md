# stallhunt

Linux performance triage that reports evidence-backed bottlenecks: it reads
pressure-stall information, memory, block-device, per-process I/O and cgroup v2
counters over a bounded window and turns them into findings with explicit
caveats.

- `src/` is the library, verified with Verus: the parsers of the kernel files,
  the checked interval arithmetic, the bounded collection steps, the scoped
  cgroup findings and evidence chains, the host CPU, memory and I/O verdicts
  with the overall health status, the ranked memory victims and I/O suspects,
  versioned recordings (building one from a hunt, checking its header,
  replaying it and redacting its identifiers) and the command-line value
  parsing.  Every public function states its result in its contract; the
  laws that span functions are public proof functions.
- `app/` is the program around it: argument parsing with clap, the reads of
  `/proc` and the cgroup mount, the sleep between snapshots, the output, and
  the recording files (`record`, `replay`, `redact`): their JSON text and the
  rule that an existing file is replaced only with `--force`.
  Grading pressure shares, which are fractions, happens there too.
- `tests/` exercises the library on concrete inputs.
