# raytracing_in_rust

A Monte-Carlo path tracer whose index-level logic is verified with Verus.

## Layout

- `src/` — the verified library:
  - `hittable_service.rs`: the arena of hittables (index 0 always holds the
    default hittable) with the entry points of a scene, the BVH root and the
    root of the list of lights.
  - `arena.rs`: a generic append-only arena (materials, textures) addressed
    by index, with its default entry at index 0.
  - `bvh.rs`: the bounding-volume hierarchy builder over arena indices; every
    node splits its leaves along one axis, children stand before their parent,
    and the root reaches exactly the listed hittables.
  - `perlin.rs`: the lattice permutations of Perlin noise (exactly the
    exchanges of the drawn targets; each one a single cycle over `0..n`) and
    the lattice hash.
  - `scene.rs`: scene selection, the even image height and the closing of a
    scene (hierarchy root and light list).
  - `image.rs`: row and column flips, pixel and sub-pixel positions, and the
    byte and word layouts of the output image.
  - `render_app.rs`: the frame-by-frame decisions of the render window.
  - `materials.rs`, `channel.rs`: material records and colour channels.
  - `rng.rs`: the calls into `rand` that the logic makes, with their contracts.
- `tests/` — tests of the library on concrete values.
- `app/` — the renderer itself: geometry, materials, textures, PDFs and the
  integrator in floating point, the scenes, configuration (`confy`), parallel
  rendering (`rayon`), the window (`minifb`) and PNG output (`image`).
