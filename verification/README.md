# Vortex

The verified core of a thread-per-core HTTP server for Linux, written in Verus.

- `src/` is the library. Its functions state what they do in `requires` and
  `ensures`, and Verus proves it, except of the few calls into other crates that
  are named below. What an application's handlers do is up to the application.
  - `parser`, `response`, `pipeline`, `date`: HTTP requests and responses.
  - `template`, `fortunes`: the fortunes page, with escaping and sorting.
  - `db`, `digits`: query counts, row numbers and decimal text.
  - `bufring`, `filetable`, `token`: receive buffers, file slots and the user
    data of completions.
  - `app`, `connections`, `dbpool`, `state`, `worker`: the application interface
    and the event handling of a worker, from completions to actions.
  - `server`: configuration and how the server is to be run.
- `tests/` runs the library on concrete values.
- `app/` is ordinary Rust around it: the clock, sockets and io_uring, the event
  loop that performs a worker's actions, and a profiling harness.

Calls into `httparse`, `itoa` and `nanorand` are declared in `parser`, `digits`
and `db`, each with what is relied on and not proved. Facts that relate several functions are
proved as the public proof functions whose names start with `law_`.
