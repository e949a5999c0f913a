# Tpaint

The editing core of a layered raster editor (layers with masks and folders,
undo history, selection masks, the fill and the magic wand, the `.tpaint`
project format and PSD files), written in Verus: the functions state their
behaviour in `requires` / `ensures` and Verus proves it. Calls into std and
into the `image` crate go through a few trusted wrappers; where such a
call's result takes pages to state (a PNG encoding, a lower-cased string, a
path joined by the platform's rules) the contracts give it a name and say
everything else exactly.

## Layout

- `src/` — the verified library.
  - `doc.rs`, `document.rs`, `history.rs`: layers, the document and the undo
    history.
  - `editor*.rs`: the editor's state and every editing operation, each with
    the state it leads to; `editor_laws.rs` proves what undo and redo give
    back.
  - `raster.rs`, `region.rs`, `morph.rs`, `canvas.rs`: pixel work (fragments,
    masks, fill, magic wand, growing and shrinking selections, a 32-bit
    canvas).
  - `packbits.rs`, `psd*.rs`: PackBits and PSD reading and writing;
    `psd_laws.rs` and `psd_layer_laws.rs` prove that a written file reads
    back as what was written.
  - `project.rs`, `project_laws.rs`: the project file and its round trip.
  - `image_files.rs`: flat images (PNG, JPEG) decoded from and encoded to
    bytes, in the format the file's extension names; `commands.rs`: the
    commands that choose an operation by the state (Delete, moving a layer,
    mask editing, which kind of file a name opens).
  - `palette.rs`, `cli.rs`, `file_list.rs`, `tools.rs`, `layout.rs`,
    `app.rs`, `text.rs`: colours as text, the command line, the file dialog
    listing, tools and panel helpers.
- `tests/` — tests of the library on concrete values.
- `app/` — the program around the library: command line, files, and the
  floating-point parts (view transforms, selection frames, compositing with
  opacity, shapes drawn with `f32`).

The outside crate `image` encodes and decodes PNG and JPEG; in `src/` it
is reached only through a few trusted wrappers whose contracts are stated in
their doc comments. `app/` reads and writes the files and hands the library
their bytes.
