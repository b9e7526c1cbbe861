# nea

The scheduling, memory and protocol logic of a web server with predictable memory use, verified
with Verus.

Each request runs in a bucket: a region of memory of fixed size, with a fixed number of queue
slots. All buckets are set up at startup. When a request is done its bucket is wiped and serves the
next one; a request that uses up its memory is cancelled alone.

- `src/` is the verified library. `executor`, `queue`, `reactor`, `arena` and `shared::allocator`
  are the server; `interleaving` and the two `queue_threads` modules state what holds of the queues
  when threads take their steps in any order. `async_server`, `runtime` and `server` are relatives
  of the server with other trade-offs, and `benchmarks` and `runner` measure it against them.
- `app/` runs the decisions of the library: threads, sockets, the global allocator and the jumps
  out of application code.
- `tests/` runs the library on concrete values.
