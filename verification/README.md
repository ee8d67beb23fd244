# dsb

Draws a grid of terminal cells (letters with colours and style flags) into
an RGB image.

- `src/` is the verified library:
  - `cell`: the cell model (`Style`, `Cell`, the flag bits and style
    operators), the faces and colours a style asks for, and a byte form of
    cells (`Cell::store`, `Cell::load`) with its round-trip laws;
  - `pixels`: a small image type and the integer drawing steps: channel
    mixing, painting a cell's background box, covering the image with a
    subpixel glyph mask, and adding up undercurl coverage;
  - `runs`: splitting a row into the runs that are shaped with the upright
    and the italic face;
  - `undercurl`: the layout of the wavy underline and the rows and coverage
    each of its columns writes.
- `app/` holds what depends on floating-point font metrics, on swash
  (shaping and glyph rendering), on fimg images and on the glyph caches:
  `Fonts`, `F`, `render`, `render_owned`, `fit`, `size`, `dims`.
