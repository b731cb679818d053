# wallpaper_colors

Extraction of Material You seed colors from wallpapers, with the rules proved
in Verus.

`src/` is the verified library:

- `rounding`: IEEE round-to-nearest-even as a specification over integers, and
  integer procedures proved to give the value the hardware gives (division and
  square root at 53 bits, any precision up to 53 bits for ratios).
- `sizing`: the size a wallpaper is scaled to before counting
  (`calculate_optimal_size`), proved equal to its evaluation in binary64,
  and proved to leave at most 112 × 112 pixels unless a side comes out as a
  single pixel.
- `blend`: alpha compositing (`composite_colors`), proved equal to its
  evaluation in binary32.
- `color`: 8-bit ARGB colors, their packed 32-bit form, hue wrapping.
- `hints`: the color hint flags.
- `population`: pixel counts per color in first-occurrence order, kept in an
  `indexmap::IndexMap`, and the call into `material_colors`' scoring.
- `bitmap`: RGBA bitmaps, their scaling (through the `image` crate) and the
  counting of their colors.
- `wallpaper`: `WallpaperColors` and the scoring strategies.
- `cli`: the options of the `monet` command.

`app/` is the `monet` command: reading the image, the parts computed in
floating point (luminance, contrast, HSL, the dark hints and the
hue-proportion ranking), and the JSON output.
