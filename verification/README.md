# multiprocessor_scheduling

A verified library of task-scheduling strategies for a simulated multicore
machine, with a small interactive front end.

- `src/task.rs`: the task record, its equality and order, and the
  demonstration task set.
- `src/sorting.rs`: a stable insertion sort of tasks by a key, with its
  specification and laws (permutation, order, stability, idempotence).
- `src/scheduler/`: the `SchedulingStrategy` trait with its conservation
  law, the six strategies (earliest deadline first, fair share, LIFO global
  queue, per-core partitions, two-level queues, work stealing) and the
  factory that picks one by name.
- `src/assignment.rs`: the split of a task list into per-core shares and the
  proof that the shares tile the list.
- `app/`: the menu, the threads that run each core with progress bars.

Times are whole nanoseconds, the precision of the clock. `create_tasks`
takes one clock reading per task, and each deadline is its reading plus the
task's offset; the front end reads the clock as nanoseconds since it
started.

`Cargo.toml` names `console` only for the front end's progress bars:
`indicatif` 0.16 resolves to `console` 0.16, which hides the terminal types
it needs unless its default `std` feature is on, and the direct dependency
turns that feature on.
