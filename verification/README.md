# fig2json

Reads Figma `.fig` files and turns them into JSON documents, with the binary
format, the document clean-ups and the canvas queries stated and proved in
Verus.

## Layout

- `src/` — the verified library.
  - `header`, `chunks`, `compression`, `zipfile`: the container: magic header,
    version, length-prefixed chunks, raw deflate or zstd compression, and the
    `canvas.fig` entry of a ZIP archive.
  - `decoder`, `float_bits`, `nodes`: the Kiwi schema and message decoding into
    `json::Json` documents.
  - `blobs`, `blob_parser`: vector network and path command blobs, base64 text
    for byte arrays, and the substitution of blob references.
  - `tree`, `parent_map`, `childmap`, `reach`, `structure`: the document tree
    built from the flat node list, with children ordered by position.
  - `transform`, `image_hash`, `css_walk`: the clean-ups of the document.
  - `diagnose`, `summaries`, `report`, `doctor`: the diagnostic report.
  - `canvas`, `canvas_query`, `pages`, `cli`: queries over a canvas document:
    layers, nodes, interactions, image fills, text nodes, folders per page.
  - `serve`: request paths and replies of the local static file server.
- `app/` — the command-line tool, file and network I/O, and the computations
  on floating-point values (colours, sizes, matrices).
- `tests/` — tests of the library through its public interface.
