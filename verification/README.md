# Particle Life

The logic of a GPU particle playground: directional attraction, swirl, velocity
alignment, preferred spacing, crowding response, type cycles, chemical trails, and the
creatures that emerge from them.

`src/` is a library verified with Verus, but for one call of an outside crate. `app/` is the program
around it: the window, the sidebar's widgets, the GPU pipelines and buffers.

## Numbers

The simulation works in single precision. The library holds such numbers by their bit
patterns (`scalar::Scalar`) and does the arithmetic itself: a sum, product, quotient or
root is stated as the exact result rounded to the nearest representable number, ties to
even, and proved to be that. Exponentials, sines and cosines are taken by the callers;
the library says what they are taken of (`Wheel::zoom_exponent`, `Wheel::brush_exponent`,
`ParticleDump::angles`) and takes the results as arguments.

## Layout

- `rounding`, `scalar`, `order`: rounding of exact values, arithmetic, and its laws.
- `vector`, `text`: pairs and quadruples of numbers; whole numbers as text.
- `model`: settings, rule matrices, camera, allocation limits, palettes.
- `creatures`: which types the rules hold together, and the geometry that implies.
- `doubling`, `piles`, `spacing`: what doubling keeps, how far rounding carries long sums, and
  how the inferred sizes follow the interaction radius and the outline field.
- `interaction`, `scatter`: brushes and particles added by hand, and where those land.
- `ui`, `input`, `panel`, `strips`: what controls, mouse and keys do, and what the sidebar
  shows.
- `gpu`: buffer sizes, uniforms, passes, and what each frame has to do.
- `laws`, `camera`: what holds of the rule matrices and the camera as a whole.

Laws are public proof functions beside the functions they relate. The one outside call
in the library is `bytemuck::cast_slice`, behind `gpu::cast_words`.

## Running

The shaders are loaded from `assets/shaders/simulation.wgsl` and
`assets/shaders/particles.wgsl`. The manifest leaves out Bevy's windowing backend; enable
`bevy_winit` and a display feature (`x11` or `wayland`) to open a window.
