# godot_rust_goap_ecs

Goal-oriented action planning (GOAP) for the agents of a Godot game driven
by an entity-component system.

- `src/` is the verified library.  `goap/goap_planner.rs` holds the planner:
  an A* search (through the `pathfinding` crate) over world states.  From
  the trusted contract of that call, the planner is proved to return a
  valid plan exactly when one exists, and a cheapest one when its estimate
  never overestimates.  `goap_system/` holds an
  agent's planning cycle: choosing the goal, planning for it and stepping
  through the plan.  `string_map.rs` is the sorted name-to-value map that
  every set of facts is kept in; `components/`, `systems/`, `actions/` and
  `goals/` hold the inventory, health, crafting and gathering rules and the
  kinds of action and goal.
- `app/` is the engine side: the native classes registered with Godot, the
  `hecs` worlds, the per-frame systems and everything that works on engine
  values or floats.  It hands the library plain values and acts on its
  answers.
- `tests/` runs the library on concrete inputs.
