# xtch-core

Conversion of manga pages (image folders, CBZ/ZIP archives) into the `.xtch`
container read by the XTEink X4/X3 e-readers, with the logic verified by Verus.

- `src/xtch.rs`, `src/le.rs`: the byte-exact page block and container codec.
- `src/layout.rs`: classification, the common page area, and which pieces
  (portrait / landscape halves / thirds, spread order) each source image becomes.
- `src/gray.rs`: cropping, rotation, connected-component trimming, fitting,
  PNG / `data:` URL rendering.
- `src/input.rs`: choosing and ordering the image entries of an input, and
  locating the source of a preview page.
- `src/parts.rs`: size-based splitting of the output into several files (a part
  buffer that hands out parts in order), and
  their names and directory.
- `app/`: the command-line program, file and archive reading, the steps that
  compute in floating point (dithering, scale, band rows), and the desktop
  commands.
