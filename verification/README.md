# icon_gen

Generates favicon icon sets from a single SVG drawing: the drawing as it is, on
black and on white, each as PNG images, an ICO file and a web app manifest,
with a markdown list of the files on request.

- `src/` is the library, verified with Verus.
  - `text` – searching, trimming and comparing text
  - `svg`, `svg_laws` – colour variants of a drawing, and what holds of them
  - `files` – the files of an icon set and the variants of a drawing
  - `plain` – drawings of filled rectangles and nothing else
  - `render` – PNG and ICO images, drawn and encoded by `usvg`, `resvg`,
    `tiny_skia` and `ico`
  - `size` – file sizes as short texts
  - `order` – the order in which names are listed
  - `markdown` – the file list and the document that it stands in
- `app/` is the command-line program around it.
- `tests/` holds the tests.
