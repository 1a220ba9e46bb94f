# gravity

An N-body gravity simulation. The library under `src/` carries machine-checked
specifications and proofs for everything in the engine and its frontends that
is integer or symbolic; an ordinary Rust program under `app/` holds the
floating-point physics, the terminal output and the window.

## Layout

- `src/` — the library
  - `integrator.rs` — the integrator identifiers and their labels
  - `preset.rs` — the preset identifiers, their labels, and the xorshift
    generator that seeds the random cluster
  - `simulation.rs` — the collision scan that decides which bodies merge
    (`MergeScan`, `merge_all`), and the bounded trajectory history
  - `raster.rs` — pixel, rectangle, disc, Bresenham line and bitmap-font text
    drawing on a row-major framebuffer, all clipped to the frame
  - `scene.rs` — background fill, trajectory trails, and the trail sampling
    of a sprite-based frontend
  - `hud.rs` — the status panel of the CPU frontend: its text and its drawing
  - `controls.rs` — key bindings, the effect of each command, and the work of
    each frame
  - `cli.rs` — command-line names of presets and integrators, report schedule
- `app/` — the program: vectors, bodies, integrator steps, energies and
  presets (floating point), the terminal frontend (`main.rs`) and the
  `winit`/`softbuffer` window (`pixels.rs`, run with `--pixels`)
- `tests/` — tests of the library

There is no GPU (Bevy) frontend: its dependency tree is not part of this
build. Its key handling is that of `controls.rs`, and its trail sampling is
`scene::trail_slot`.

A body without a collision radius is a point: it merges with another body
only within that body's radius.

## Running

```
gravity [solar|binary|eight|cluster] [STEPS] [DT] [euler|verlet|leapfrog]
gravity --pixels
```
