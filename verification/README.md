# gamepad-facade

One gamepad-input API over two very different sources: SDL3 natively, and the
browser's Gamepad API in a wasm build. Callers see neither.

Input is a stream that is pulled from. SDL has a real event queue; a browser
has only snapshots of the current state, which are diffed into the same
edge-triggered stream.

* `src/` is the library, verified with Verus. It decides everything and talks
  to nothing: `init` and `next_event` say what is to be done next and are called
  again with what came of it.
  * `lib.rs`: the public types, the choice of a backend, and the two entry points
  * `web.rs`: the browser backend, which diffs snapshots
  * `sdl.rs`: the SDL3 backend
  * `stub.rs`: what is left without SDL3
  * `ieee.rs`, `motion.rs`: axis values, as IEEE 754 bit patterns
  * `laws/`: what holds of the library as a whole
* `app/` is the crate that applications use. It performs the effects, logs what
  fails, and has floating-point axis values.
* `tests/` runs the library.

Worth knowing:

* Triggers are axes, with values in [0, 1]. A browser calls them buttons 6 and 7.
* Pads attached before `init` are adopted silently natively, with no
  `Connected`. In a browser a pad always produces a `Connected` first.
* A native build with `--cfg without_sdl3` has no gamepads and links no SDL.
* A browser's standard mapping stops at `Guide`; paddles, `Misc*` buttons and
  the touchpad click never arrive there.
* Browser pads without a standard mapping are read by raw index, with one
  complaint.
