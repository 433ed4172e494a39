# pie

A sound and incremental programmatic build system, verified with Verus.

Tasks require other tasks and read and write resources; the build system records these dependencies in a
dependency graph. Top-down, when a task is required, it checks the dependencies of the task in turn and reuses its
cached output exactly when every dependency is found consistent, executing the task otherwise. Bottom-up, it
schedules the tasks whose dependencies to changed resources are found inconsistent, and executes each scheduled task,
scheduling in turn exactly the readers of what it wrote whose check fails and the tasks that require it whose check
of its new output fails. A build that refused a request of a task (a cyclic task dependency, a hidden dependency or an
overlapping write) fails with the first such error.

## Layout

- `src/` — the verified library.
  - `value.rs` — dynamic values and keys, compared by their mathematical view.
  - `task.rs` — output checkers and their laws.
  - `dependency.rs`, `store.rs`, `graph.rs` — dependencies and the store of tasks, resources and dependencies on top
    of the incremental topologically ordered graph of `pie_graph`.
  - `pie.rs` — the build system, build sessions, top-down and bottom-up builds.
  - `queue.rs` — the dependency-ordered queue of a bottom-up build.
  - `resource/` — resource checkers, filesystem errors and checkers, global map resources.
  - `collection.rs` — the map of resource state.
  - `stamp.rs` — file and output stamps.
  - `tracker/`, `tracking.rs` — build event trackers.
  - `tagged.rs` — type identities for tagged serialization.
- `app/` — filesystem helpers and the filesystem resource state, standard output, and serde.
- `tests/` — tests of the library.
