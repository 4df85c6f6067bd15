# fastcull_core

The engine of FastCull, a tool that culls large RAW shoots: everything that is
decided, without the screen, the disk and the threads. Every item under `src/`
is verified with Verus.

| Module | What it decides |
| --- | --- |
| `catalog` | which files of a folder are images |
| `exif`, `keys`, `civil` | summaries, capture times, sort keys that order chronologically |
| `filter`, `order` | the view: membership, order, and where the cursor goes |
| `grid`, `pointer` | cells, cursor movement, what the mouse means |
| `burst` | which frames belong to one burst |
| `iptc` | caption templates: expansion, batch apply, revert |
| `fileops`, `digest` | copy plans, clash answers, verified commits, reports |
| `clip`, `clip::qt` | video export: plan, QuickTime header, read-back |
| `jpeg`, `orient` | JPEG headers, resizing, encoding, and turning pixels |
| `loupe` | which image is decoded next, and how large |
| `pipeline` | the thumbnail queue and the adaptive pool of readers |
| `cache` | what keys a cached preview, and when a cache is thrown away |
| `text`, `rounding` | text and number forms the others are stated in |

Each module opens with its model. The contracts of the executable functions
speak of it, and the public proof functions (`lemma_…`) state what holds of
several of them together.

What the library calls outside itself stands behind small wrappers whose
contracts are believed: JPEG headers, the resizer and the encoder (`jpeg`), BLAKE3
(`digest`), Unicode case folding and capitals (`iptc`), the list of RAW
extensions (`catalog`) and `String::push` (`text`).

`app/` is ordinary Rust around the library: files, threads, the database, and
pixel geometry in floating point.
