# display_fs

A driver for the WeAct Studio Display FS V1 family of USB LCD panels
(0.96 inch, 80 x 160, and 3.5 inch, 320 x 480), split into a library whose
logic is proved with Verus and a thin command-line program around it.

- `src/` — the verified library:
  - `image.rs`: orientations and canvas sizes, an RGB raster, RGB565
    encoding in the panel's physical scan order, and the auto-fit font-size
    search;
  - `protocol.rs`: the orientation and bitmap commands and the ordered steps
    that send a frame;
  - `port.rs`: display models, their configurations, model detection from
    USB information and the choice of the display among the serial ports;
  - `text.rs`: word-aware wrapping to the display width and pagination;
  - `spotify.rs`: the text shown for the current Spotify track;
  - `cli.rs`: decisions of the command-line front end (orientation choice,
    presets, page order);
  - `strings.rs`: character helpers.
- `app/` — the program: argument parsing (clap), font loading and glyph
  measurement (ab_glyph, imageproc; floating point), serial I/O
  (serialport), running shell commands and asking Spotify.
- `tests/` — tests of the library.

Glyph widths come from floating-point font metrics, so the library takes the
width test as a caller-supplied predicate and proves its wrapping, paging and
auto-fit logic for every deterministic predicate.

The program embeds DejaVu Sans from `/usr/share/fonts/truetype/dejavu/`;
`DISPLAY_FS_FONT` names another font file to use instead (for CJK text).
