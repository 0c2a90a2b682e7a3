# bhf

The decisions of a fuzzing front end, as a library whose every function is proved against
its contract, and the ordinary Rust around it.

`src/` holds the library:

- `text`, `json`, `digest`: text, JSON text and digests, on which the rest is built.
- `go_types`, `go_call`, `go_template`, `go_build`: the harness of a Go target, from the
  types of its parameters to what a failed build amounts to.
- `jobs`, `job_file`, `daemon_error`, `scheduler`, `worker`, `webhook`: a daemon that queues
  fuzz jobs, writes them down before it acts, recovers them and notifies of their end.
- `transport_spec`, `transport_fault`, `transport_campaign`: fuzzing through a transport.
- `tsan`: the replay of a corpus for data races.
- `comparison`, `comparison_issues`, `comparison_entries`, `comparison_render`: the
  comparison of two campaign reports.
- `fidelity`: what a fuzzing result speaks to.
- `adapter`: state machines as graphs.
- `sched`, `rtos`: a cooperative thread scheduler, and the answers of faked kernel
  primitives.
- `fatal_signal`, `pack`, `report`, `build_stamp`: crashes by signal, and small commands.

`app/` runs processes, sockets, files, threads and hooks with what the library decides.
`tests/` run the library.
