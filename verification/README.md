# gha-see

Offline analysis of GitHub Actions workflows: which jobs and steps would run
for a mocked event, how matrices expand, how jobs depend on each other, which
`${{ needs.*.outputs.* }}` values flow between them, and coaching findings for
what cannot be decided without running the workflow.

## Layout

- `src/`: the library, verified with Verus. Every public function states its
  result over a mathematical model (spec functions over `Seq`, `Map` and the
  views of the library's types); laws that span several functions are public
  proof functions (`lemma_*`).
  - `yaml`, `parse`, `ir`, `triggers`: the workflow model and its
    normalization into jobs, steps, instances and triggers.
  - `lexer`, `parser`, `number`, `json`, `eval`: the expression language and
    the run-state evaluation of jobs and steps.
  - `matrix`: `strategy.matrix` expansion (include, exclude, cap).
  - `graph`: the `needs:` graph (petgraph), missing needs, cycles, levels.
  - `expr`: expression extraction, balance checks, output bindings.
  - `uses`, `fetch`, `refetch`: `uses:` references, local composite actions,
    reusable workflows and the remote fetch state machine.
  - `findings`, `analysis`: user-facing findings and the analysis pipeline.
  - `api`, `discover`, `digest`: directory listings, workflow discovery order
    and `hashFiles` digests.
  - `smap`, `text`: sorted string maps and verified string helpers.
- `app/`: the command-line tool and web server around the library (file and
  network I/O, YAML and JSON (de)serialization, HTTP routes).
- `tests/`: tests of the library on concrete workflows.
