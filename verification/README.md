# kuluu

The macros and the zone models of a game client, as a verified library.

- `src/` decides and computes. Every function states what it returns or changes,
  and the statements are proved.
- `tests/` runs the library on concrete values.
- `app/` is the Bevy side: systems that read input and files, hand plain values to
  the library, and draw what comes back.

Single-precision numbers are held in `src/` by their bit patterns: the library
orders them and asks whether they are finite. Distances, determinants and
transformed vertices are computed in `app/` and handed over.

| Modules | What they are about |
| --- | --- |
| `macros`, `macro_store` | books, pages and macros, by character |
| `macro_exec` | hotkeys, and the sequencer that runs a macro |
| `macro_editor`, `macro_input` | the editor: what it shows, and its keys and clicks |
| `macro_palette`, `macro_provider` | labels, and what palette and editor are filled with |
| `mmb_request`, `mmb_pass`, `mmb_retire` | streaming models in and out around a point |
| `mmb_load`, `mmb_cache`, `mmb_material` | meshes, textures, handles and materials |
| `zone_bake` | merging a zone into one mesh for each part of it |
| `scalar`, `geometry`, `text`, `asset_map`, `stable_order` | what the others are built on |
