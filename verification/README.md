# ttymap_tui

Terminal graphics for a map viewer that draws Mapbox vector tiles as
Unicode Braille text or as sixel images, written in Verus.

- `src/` — the verified library:
  - `render_mode`: choosing Braille or sixel output, and detecting sixel
    terminals from `TERM` / `TERM_PROGRAM`;
  - `cell_size`: the pixel size of a terminal cell;
  - `frame`, `raster`: a frame of character cells and its rasterisation
    (cell background, Braille dots in the foreground, 2 by 4 per cell);
  - `palette`: the xterm 256-colour palette;
  - `color_set`: the distinct colours of an image, gathered in an ordered
    set;
  - `rle`, `sixel`: run-length compression and the sixel escape sequence;
  - `sixel_decode`: a sixel decoder, and the proof that the band data
    paints every pixel of the image once, in its own colour;
  - `overlay`: text cells drawn over a sixel image;
  - `buffer`, `widget`, `layout`, `panels`, `footer`, `input`,
    `snapshot`: the screen buffer, drawing a frame into it, the screen
    layout and its chrome, footer key hints, input routing, snapshot
    sizes and when to stop waiting for a snapshot's tiles.
- `app/` — glue that reads the environment and the terminal, converts
  to and from the terminal and UI toolkit types, defines the
  command-line types and writes sixel frames.
- `tests/` — tests run against the compiled library.
