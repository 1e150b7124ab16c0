# imaglib

A small raster-graphics and widget-layout library written in Verus.

- `src/math.rs`: integer grid vectors with their operators, bounding boxes,
  the point-in-triangle test, an integer square root and a xorshift
  generator.
- `src/draw.rs`: an RGBA image and its integer drawing primitives
  (pixels, rectangles, triangles, circles, bitmaps, bitmap-font text), text
  measurement and layout, building an image from decoded pixels and writing
  a plain PPM file. `src/draw/colors.rs` holds the named colours.
- `src/gui.rs`: a widget tree kept in one arena, with the minimum-size and
  layout passes and rendering to a list of drawing commands.
- `src/obj.rs`: a chained bump arena of zeroed byte blocks, handing out
  aligned spans that can be read and written.

Every function there carries a contract that Verus proves. `app/` holds the
program around the library: windows (minifb), image decoding (load_image),
serialisable copies of the image types (serde), the floating-point vectors
and drawing (scaled text, lines, shaders, rotation), the process-wide random
generator and the closures that widgets run on update.
