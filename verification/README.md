# sixel_graphics

SIXEL output for terminals that render SIXEL but no Kitty graphics, verified with
Verus. A frame of image placements goes in; the bytes that paint it on the hosting
terminal come out, together with a cache of decoded pictures and encoded payloads
for the next frame.

- `src/` is the verified library. `cache` paints frames on top of `clip`, `decode`,
  `resample`, `payload` and `order`; `laws` proves what holds of frames as a whole.
- `src/codecs.rs` holds the calls into the `image` and `icy_sixel` crates. Their
  contracts are trusted; everything else is proved. `icy_sixel` encodes the SIXEL
  streams. `image` is there for one thing: placements may carry PNG streams, and
  this crate has no PNG decoder of its own.
- `app/` reads the process environment and writes to the terminal.
- `tests/` runs the library with the real codecs.

The averages of a downscaled picture are computed in whole numbers, with one
rounding at the end.
