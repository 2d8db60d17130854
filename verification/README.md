# vue_parser

A structural parser for Vue single-file components, verified with Verus. It turns
a `.vue` file into a tree of semantic nodes for structured diffs.

- `src/` is the library. `text`, `cut`, `pieces`, `case` and `numerals` hold text
  primitives, `hash` the content hash, `tags` tags and attributes, `blocks` the
  top-level blocks, `template`, `script` and `style` what the blocks hold, `node`
  the tree, `component` the whole component, and `plugin` what a host asks of the
  parser.
- Every function's contract gives its result as a spec function of its arguments.
  The public proof functions whose names begin with `law_` state what holds of
  the library as a whole.
- The one thing taken on trust is the contract of `str::to_lowercase`, in `case`.
- `app/` is the plugin around the library. It needs the plugin SDK, the host's
  interface file `wit/plugin.wit` and the metadata file `plugin_metadata.info`.
- `tests/` runs the library.

Sources with more than `u32::MAX` lines are outside what the parser accepts:
line numbers are 32 bits wide.
