# fantasyconsole

A fantasy console engine (PICO-8 and TIC-80 style virtual hardware) whose
core is a Verus-verified library.

- `src/` — the verified library:
  - `console` — the two hardware profiles;
  - `vm::api` — the virtual machine state and its rasterizer (pixels,
    lines, rectangles, circles, sprites, map, text), each operation
    specified as a *brush* drawn through camera, clip and palette;
    `vm::poly` — polygon outlines and scanline fills; `vm::laws` —
    properties that relate several operations;
  - `cart` — `.p8` text cartridges, the native `.fc` chunk format (with its
    round-trip law) and `.p8.png` images (hidden data and `pxa` decoding);
  - `renderer` — the sprite editor (with its flood fill) and map editor,
    number formatting and frame conversion to RGB;
  - `audio` — waveform and channel selection and the per-channel clock of
    the mixer (sound length and arpeggio timing);
  - `network` — the button bitmask used for input replication.
- `app/` — the program around it: files, Lua bindings (mlua), window,
  input and audio device (SDL2), save slots (serde_json), UDP, and the
  floating-point synthesis and geometry.
- `tests/` — tests of the library on concrete values.
