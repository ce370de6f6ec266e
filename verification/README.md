# brownian

Agent sandbox with contact physics over a thermal medium: rigid bodies shaken
by a diffusing temperature field, in the style of Brownian motion.

`src/` is the verified library (Verus):

- `sim/` — simulation clock and the addressable noise (SplitMix64 finaliser),
  with the proof that the finaliser is a bijection, that two coordinates
  differing in the seed alone, the step alone, or the slot and stream alone
  never share a word, and that a reset with the same seed replays the episode
  after any number of steps.
- `agents.rs` — the slot table that gives every agent a stable identity, with
  its invariant (the free list names exactly the empty slots) and the reuse
  laws.
- `stencil.rs` — the reflecting-border neighbour rule of the thermal grid, and
  the exact-arithmetic proofs that a diffusion sub-step conserves heat without
  decay, relaxes the excess towards the bath with it, and creates no new
  extremes. The last law holds when the coefficients, written over a common
  denominator `denom`, are non-negative and `2*kx + 2*ky + decay <= denom`.
  The sub-step count chosen in `app/field.rs` only ensures `kx + ky <= 1/2`,
  so with a positive decay that hypothesis is not guaranteed by the program
  and the law does not cover it.
- `args.rs` — the `--grid <width>x<height>` grammar and the scan of the
  command line.
- `field.rs` — backend selection (`--backend`, cycling, names).
- `shapes.rs` — shape cycling and labels.
- `env.rs` — layout of the action tensor.
- `dispatch.rs` — how the diffusion sub-steps are laid out on the GPU:
  workgroup cover, alternating buffers, where the result is left, and the
  size of the grid buffers.

`app/` is the program around it: the Bevy window, the rapier2d world, the
`f32` temperature grid and its serial, rayon and GPU backends. Floating point
and the engines stay there; the integer logic they rely on comes from `src/`.

`tests/` exercises the library on concrete values.
