# noc_sim

Decision logic of a cycle-level simulator of a spatial dataflow accelerator:
compute (PCU) and memory (PMU) tiles that exchange packets over a
two-dimensional mesh network-on-chip.

- `src/` is the verified library.
  - `mesh`: ports, tile addresses, dimension-order routing and the links a
    route crosses.
  - `links`: connections and the link usage table of a configuration.
  - `ports`, `wiring`: the port tables of the routers and how they take the
    channels of the links.
  - `control`: the actions a simulated unit asks for and the events it is
    told.
  - `mesh_router`, `sweep_router`: the two router designs as state machines.
  - `script`, `units`: fixed schedules of channel operations and the
    schedules of kernels, adapters and edge routers.
  - `tiles`: how a tile is hooked into the dataflow.
  - `report`: reading the performance model's report.
- `tests/` runs the library on concrete inputs.
- `app/` builds the simulation with the DAM simulator and runs each unit's
  decisions on its channels.
