# streaming_core

The core of a streaming system, verified with Verus: the scheduling of stream fragments, a
key-value store in memory, and the logic of the task service.

- Scheduling. `fragment_graph` says what a fragment graph demands of its fragments. `graph_facts`
  turns the graph into facts, `propagation` spreads requirements along the edges, `requirement`
  merges those of one fragment, and `scheduler` turns the outcome into distributions
  (`distribution`, `worker_slot`). `locations` answers where actors run.
- State. `memory_store` is the store and its iterators. It rests on `sorted_list`, and is
  specified with `batch` (what a batch of writes does to a map), `listing` (the entries of a map
  in order) and `byte_string` (keys and their order).
- Tasks. `task_service` creates tasks and answers requests.

What the library relies on without proof are the wrappers around `itertools` in `grouping` and
around `bytes` in `byte_string`. How worker slots are dealt out, how mappings are built and how
tasks are fired is handed in by the caller, as functions.

Public proof functions named `law_..` state what holds across functions.

`tests/` runs the library. `app/` puts it to use: locks and asynchronous traits around the store,
RPC types around the task service, errors and logs around the scheduler.
