# depend

Installs ECS systems in dependency order. Each system names the systems it
depends on; the installer keeps these dependencies in an acyclic graph and
gives every system a dispatch priority strictly lower than that of each
system it depends on, so dependencies are started first.

- `src/` is the verified library (Verus):
  - `paths.rs`: walks, reachability and acyclicity of a dependency relation;
  - `graph.rs`: the trusted interface to the `daggy` graph that stores the
    dependencies and refuses edges that would close a cycle;
  - `dag.rs`: the dependency graph of systems, with aliases;
  - `priority.rs`: priorities as minus the longest dependency chain, and the
    proof that dependencies always get higher priorities;
  - `system.rs`: the installer that records systems and plans their
    installation;
  - `example.rs`, `hotload.rs`: the example engine's data and systems, and the
    reload decision of the hot-loading loop.
- `app/` is the plain Rust around it: the `specs` traits and planner, the
  example engine's systems, and the `libloading` platform loop.
- `tests/` exercises the library.
