# dytas

A verified library for DYTAS, a dynamic task scheduling algorithm for
workflows of dependent tasks, written in Verus.

The scheduler sorts the tasks of a workflow by their dependencies (Kahn's
algorithm or depth-first search), deals them out round robin to one task
queue per processor, placing each task only on a processor it can run on,
and then, whenever the state of a task changes, lets each processor take
ready tasks it can run from the queues, its own queue first.

Layout:

- `src/dag.rs`: the workflow model (tasks, data items) and its invariant.
- `src/graph.rs`: the predecessors and successors of a task, and how the two
  agree.
- `src/topo.rs`: Kahn's sort and the depth-first sort, with their exact
  orders and the topological-order proofs.
- `src/queue_set.rs`: the processor task queues.
- `src/strategy.rs`: the scheduling criteria, their names, and scheduler
  parameters.
- `src/system.rs`: resources, configuration and scheduler actions.
- `src/dytas.rs`: the scheduler: `evaluate`, the round-robin deal, the
  scheduling pass, `start` and `on_task_state_changed`, and `try_start` and
  `try_on_task_state_changed`, which check that the call can be made.
- `src/dytas_laws.rs`: what every pass and every deal keeps.
- `app/main.rs`: a command-line tool that prints the tasks of a workflow,
  read from a JSON file, with their parents and children.
