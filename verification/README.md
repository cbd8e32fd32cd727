# rust_project

A small robot-colony simulation: scouts explore a tile map and report
obstacles and deposits to a shared store of knowledge, collectors plan
routes to known deposits and back to the base, and the base keeps the
stock of harvested resources. A text renderer draws the world.

Layout:

- `src/` is the library, written in Verus. Every module states its
  behaviour in `requires`/`ensures` contracts over mathematical views
  (`GridView`, `KnowledgeView`, `ScoutView`, `CollectorView`,
  `SimulationView`), and the `law_*` proof functions state properties that
  span several calls (reading back what was written, exhausting a deposit,
  following a route to its end, rescanning, the layers of the map, ...).
  - `domain`: positions, tiles, deposits, robot and world snapshots.
  - `map`: the grid, its base and spawn tiles, deposit placement,
    ranked obstacle placement, harvesting. Placement draws a free tile and
    an amount per deposit from `rand`'s `StdRng` seeded with the given seed;
    the contracts state exactly what is placed for the values drawn
    (`GridView::placed_on_draws`), but not which values the generator
    yields, since `rand` documents `StdRng` as not portable (a later
    version may change the algorithm, and results may depend on the
    platform).
  - `knowledge`: what the robots know of obstacles and deposits.
    `KnowledgeState` holds the lists and carries the verified store
    operations; `SharedKnowledge` is a handle on one `KnowledgeState`
    behind `Arc<RwLock<..>>`, so every clone sees what any clone records.
    Because another handle may change the store at any moment, the
    handle's contracts state what holds of the store as it was found under
    the lock, and the laws are stated over `KnowledgeView`.
  - `robots`: scouts (exploring and scanning) and collectors (a
    breadth-first route search and route following).
  - `base`: the stock.
  - `comms`: the message contract and a standard channel.
  - `sim`: the simulation state and its snapshots.
  - `ui`: the text rendering of a snapshot.
- `tests/` exercises the library through its public interface.
- `app/` is the program around it: the entry point, obstacle generation
  from Perlin noise (floating point), and the terminal front end.
