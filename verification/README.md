# server_bench

HTTP benchmark servers built on tokio, glommio and hyper, with their
dispatch and request-handling logic as a Verus-verified library.

- `src/` — the verified library:
  - `cpus` — the CPU count (`NUM_THREADS` or the available parallelism), parsed
    exactly as `str::parse::<usize>` does, and the worker count;
  - `round_robin` — round-robin dispatch, with its fairness laws;
  - `least_loaded` — least-connections dispatch by a stable sort on the
    workers' active connection counts, with its uniqueness law;
  - `requests` — `Request #n` bodies and the per-thread request counter;
  - `body` — the one-frame response body and the thread-bound stream wrapper;
  - `service` — the demo service's pauses and fixed settings.
- `app/` — the servers themselves: runtimes, sockets, hyper glue, threads.
- `tests/` — tests of the library.

Run a server with `server_bench SERVER [SERVICE]`, e.g.
`server_bench tokio-round-robin random-sleep-service`; `NUM_THREADS` sets the
number of CPUs used.
