# sciink

Inkscape extensions for scientific figures, built around a verified SVG document model.

The library (`src/`) is written in Verus: every function carries a `requires`/`ensures`
contract over a mathematical model of the document (`DocV`: a node table with parent and
child links, kinds, attributes, the id index and depths) and is proved against it.

- `dom`, `dom_laws`, `dom_write_laws`: the document tree, its editing operations and their laws,
  among them that writing the document canonical reader events build gives back their text.
- `xml`: reading and writing SVG text (the tokenizer is `quick-xml`, called through a few
  trusted wrappers whose contracts are stated in `xml.rs`).
- `style`, `sheet`, `cascade`, `cascade_laws`: inline styles, stylesheets, selector matching
  and the cascade.
- `cleanup`, `ops`: clip/mask references, grouping, style composition, editor attributes.
- `text`: the lxml-style view of text elements (runs of `.text` and `.tail`), whitespace
  clean-up, fonts named by a style, anchors, kerning merge types, the font-cache fields, and
  where each line's position comes from (`lines`; the coordinate values are the caller's).
- `tools`: the decisions of the individual extensions (Favorite Markers' template store,
  the Flattener's selection and exclusions, the Slimmer's stylesheet pass, ...).
- `cli`: the command-line prescan shared by all tools.

`app/` is the executable around the library: argument parsing with `clap`, reading and writing
files, the template store file, and the error handling at the process boundary.

`tests/` runs the library on concrete documents.

What is not in this build: the parts of the tools that measure fonts and geometry in floating
point (text layout and metrics, transforms, path bounds and scaling, the flattening passes,
placing and scaling markers on shapes). The scaler, homogenizer, text-ghoster,
combine-by-color and font tools therefore answer that they are not available, as do the
Flattener outside its Exclusions page and Favorite Markers when asked to put a template on
shapes.
