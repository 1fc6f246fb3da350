# reactex_core

The core of a reactive entity-component-system, verified with Verus.

- `src/` is the verified library: generational entity storage, the per-entity
  component table, slot pools, filters with their appear and disappear events,
  the transactional world pipeline (one step at a time) and buffered changes.
  `src/laws.rs` holds the properties that span several operations.
- `tests/` runs the library on concrete values.
- `app/` is the runtime around it: type-erased component values, handler
  invocation with panic capture, global registrations, logging and display.
  It drives the pipeline with `World::execute_step` and calls the handlers that
  each step hands out.
