# unit_render

Verified decision logic behind the per-frame instance upload of an RTS
client, with the floating-point side kept apart.

- `src/` (verified with Verus)
  - `part_tree`: the instance plan of a unit model: which parts are drawn,
    in pre-order, and the steps (joint and local data) that build each
    part's transform, with the plan for the meshes that are ready; proved
    sound, complete, each node once, counted per mesh, built only from
    the steps of mesh-carrying nodes on the path, unchanged by
    splicing out mesh-less nodes, and losing only a node's own instance
    when its mesh is not ready.
  - `highlight`: highlight levels, the decimal packing of highlight and
    team, the team code of unit icons.
  - `units`: the models drawn each frame (the unit editor's first) and
    which units are drawn as icons.
  - `session`: the game state of a session and its reset, after which
    nothing of the session is drawn.
  - `orders`: which order lines are drawn.
  - `bars`: which status bars a unit shows.
  - `cursor`: the cursor icon's atlas tile and pixel square, with
    overflow checked or wrapping.
  - `records`: stamping a value into every record of a flat buffer.
- `app/`: transforms, projection, culling, the float records and their
  upload through the client's GPU instance buffers, using `nalgebra`,
  driven by the library's decisions.
- `tests/`: tests of the library on concrete values.
