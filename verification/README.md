# deep_tek

The game rules of a chunked mining and automation world, written in Verus:
every function in `src/` carries a contract that Verus proves.

## Layout

- `src/world.rs` — the tile world: foreground and background planes, placed
  furniture with its stores and battery charges, specialists, sky access and
  the transport revision.
- `src/items.rs`, `src/inventory.rs`, `src/crafting.rs`, `src/use_item.rs` —
  items, stacks, containers and the player inventory, recipes, and using the
  selected item on the world.
- `src/item_transport.rs` — conveyor networks (built from touching connectors
  and shared machines) and the transfer tick.
- `src/machine_processing.rs`, `src/orbital_export.rs` — machines that turn
  items into other items, and launchers that ship them for money.
- `src/power.rs`, `src/power_grid.rs`, `src/power_network.rs`,
  `src/power_refresh.rs`, `src/union_find.rs` — power nodes, candidate
  links, link choice and networks, what an update rebuilds or rechecks, and
  the distribution of energy.
- `src/contracts.rs`, `src/delivery.rs` — the contract board, corporation
  progress, and equipment deliveries.
- `src/housing.rs`, `src/specialists.rs` — room assessment (a breadth-first
  fill, proved to give one answer per room), recruiting and specialist
  bonuses and happiness.
- `src/spawning.rs`, `src/turret.rs` — machinery attention, spawn selection
  and spawn rounds, and turret targeting rules.
- `src/screen.rs`, `src/pause_menu.rs`, `src/gui.rs`, `src/text.rs` — screen
  changes on Escape and Tab, menus, and the text the interface shows.
- `tests/` — behaviour tests run against the compiled library.
- `app/` — a small headless program around the library: it runs an outpost,
  and keeps the rules that need floating point (the day cycle, link line of
  sight, meter fractions).

## Checking

Run Verus on `src/lib.rs`; `cargo test` runs `tests/`.
