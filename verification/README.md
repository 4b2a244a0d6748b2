# orchitecture

The rules of a city-building game, as a Verus library: every function in
`src/` carries a `requires`/`ensures` contract that Verus proves, and the
laws that span several functions are stated and proved as public proof
functions (`lemma_*`).

## Layout

- `src/` — the verified library.
  - `resource.rs`, `distribution.rs`: uniform and unique resources, the
    inventory, and how a month's leftover inflow is stored or lost.
  - `idea.rs`, `idea_view.rs`, `idea_window.rs`: the idea graph, learning
    and understanding segments, the rows and layers the ideas window shows,
    and when that window announces new knowledge.
  - `place.rs`, `city.rs`, `formation.rs`, `population.rs`: place kinds and
    placed places, planning and committing an assignment, restrictions and
    evictions, the cores places may form around, and who lives and works
    where.
  - `sparse3d.rs`, `serialization.rs`, `decimal.rs`, `text.rs`: the sparse
    grid of cells and the saved-grid text format, read and written with
    round-trip laws.
  - `pathing.rs`, `orc.rs`, `flood_fill.rs`, `road.rs`: the settings that
    build the navigation grid, a route's walking points, open-sky columns
    and the road's forbidden zone.
  - `command.rs`: the arguments of the headless session's text commands.
  - `eorf.rs`, `materials.rs`, `build_tool.rs`, `month.rs`, `llm_rooms.rs`:
    structure and material catalogues, the build tool's state, the month's
    market gains and the sketched example rooms.
- `tests/` — tests of the library on concrete values.
- `app/` — a small command-line front end: loads the definition files
  (RON, through serde), prints the ideas window as text, and loads saved
  grids (JSON detail lines through serde_json). It holds the I/O and the
  floating-point parts (idea-gate efficiency, morale) that the library
  leaves out.
