# lgui

The platform-independent logic of the LGUI desktop GUI library, written in Verus. The
library's logic is verified against contracts over mathematical models; calls into the
Unicode segmentation, bidirectional and icon crates go through a few trusted wrappers
whose contracts state what those crates document. Laws that span several operations
(normal locations and their round trip, route choice by score, cache eviction, counter
consistency) are stated as proof functions beside the code they describe.

## Layout

- `src/router/` — locations (parsing, resolution, percent coding), route patterns and
  their specificity, path parameters, history actions, the declarative route table with
  its validation, numbering, matching and redirects; `normal_form.rs` gives the normal
  form of locations and the laws built on it.
- `src/renderer.rs`, `src/renderer/` — frame information and statistics, renderer
  capabilities and kinds, cache budgets, bidirectional text direction and text index
  conversions, and the morphology filter behind drop shadows.
- `src/runtime/` — the set of pending invalidation requests.
- `src/platform/` — graphics driver selection and renderer recovery, pointer, touch,
  wheel and resize input, window placement, the window registry with ownership, tray
  menus and wide strings, BGRA pixel work (premultiplication, transparency recovery,
  box blur, crops, alpha preparation, surface regions), the static layer, GDI bitmap
  and Direct2D cache policies, GDI blit metrics and text runs, SVG icon registries and
  tinting, and accessibility node ids.
- `src/text.rs`, `src/geometry.rs` — string and rectangle helpers shared by the above.
- `tests/` — the library's tests.
- `app/` — the parts that need the operating system or floating point: thread-local and
  process-wide caches, typed resources, SVG rasterisation through resvg, and logical
  rectangles.
