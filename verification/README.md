# paintfe

The document model and the integer-exact operations of a raster image editor, written in
Verus: the functions in `src/` carry `requires`/`ensures` contracts that Verus proves,
and the public `lemma_*` proof functions state properties that hold across operations
(inverse transforms, undoing an added layer, text edits that keep or restore the text, and
so on).

Five small functions are trusted rather than proved: each is marked
`#[verifier::external_body]`, makes one call into std or the `image` crate, and has a
contract that Verus takes on faith. They are `to_lowercase` (`str::to_lowercase`),
`char_is_lowercase` (`char::is_lowercase`), `resample` (`image::imageops::resize`),
`decode_image_bytes` (`image::load_from_memory`) and `encode_png` (PNG output of
`DynamicImage::write_to`). Their doc comments say what is claimed of each; the results of
the outside code are named by `uninterp` spec functions (`lowercase_of`, `lowercase_char`,
`resampled`, `png_encoded`) where they depend on the arguments alone.

Layout:

- `src/raster.rs` — RGBA and grey buffers, pixel indexing, selection masks.
- `src/canvas.rs` — layers, the canvas, the undo record; adding, deleting, duplicating
  layers and merging a layer down as a mask.
- `src/effects.rs`, `src/outline.rs`, `src/effect_settings.rs` — pixelate, RGB displace,
  median, oil painting, canvas border, the integer part of the outline effect, and the
  effect settings' selectors.
- `src/transform.rs` — flips, quarter turns, canvas resize with anchoring, image resize
  (resampling through the `image` crate).
- `src/clipboard.rs` — the selection's bounding box and clip, which clipboard image a paste
  takes, the clipboard image type chosen on Wayland, and decoding and PNG-encoding the
  clipboard's bytes.
- `src/text*.rs` — text runs and styles, offsets and positions, inserting, deleting,
  splitting, styling and merging runs, glyph overrides, text layers' blocks and cache
  generations, warp names, selection helpers, tight bounds and compositing of rendered text.
- `src/shapes.rs` — shape kinds and fill modes.
- `src/scripting.rs`, `src/script_error.rs` — the pixel context that user scripts act on,
  canvas operations they request, and readable script error messages.

`app/` holds what is not verified: the Rhai script host, clipboard I/O, and the
floating-point effects, shape rasterization and warps, which use the library's types.
`tests/` exercises the library on concrete values.
