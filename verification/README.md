# kollaps

A network emulator's core, verified with Verus.  Each emulated service runs
an emulation instance that reads the experiment's topology, computes the
paths from its service to every other one for every age of the experiment,
shapes its traffic accordingly, follows the dynamic events and answers the
controller.

## Layout

- `src/`: the verified library.
  - `graph.rs`, `elements.rs`, `assoc.rs`: the network graph (services,
    bridges, links, paths) over a shared node list, its lookup tables and
    their well-formedness.
  - `shortest.rs`: paths by hop count from the graph's root.
  - `xml.rs`, `rules.rs`: the topology text parsed into the elements of
    the experiment's blocks, and the rules a topology file obeys.
  - `schedule.rs`, `topology.rs`: the graphs and events a topology's
    dynamic section derives, the links a `<link>` element stands for, and
    replicas.
  - `state.rs`, `shaping.rs`: the ages of an instance, what changes from one
    graph to the next, and how the traffic shaper is set up.
  - `setup.rs`, `commands.rs`, `monitor.rs`, `address.rs`: the small
    protocols between processes and the accounting of sent bytes.
  - `ids.rs`, `arguments.rs`, `network.rs`, `files.rs`, `orchestrator.rs`:
    single-host deployments (service identifiers, command arguments,
    namespace addresses, temporary files) and container commands.
- `tests/`: tests of the library.
- `app/`: the program around it: command line, topology file reading,
  floating-point computations, the traffic shaper, sockets and processes.
