# cssbox

A CSS box layout library whose logic is verified with Verus.

`src/` is the verified library:

- `style` — the keyword values of computed styles (display, position,
  float, flex and grid alignment, …) and their predicates.
- `text` — character-level string operations (trimming, searching,
  splitting, `str::lines`, integer parsing) with their specifications.
- `attrs`, `dom` — element attributes and the DOM arena, its searches and
  its depth-first walk.
- `html`, `css` — the HTML and CSS parsers, each specified by a recursive
  description of what it reads.
- `cascade` — selector matching, specificity, the cascade order of matched
  rules and the declarations applied to each element.
- `properties` — what each declaration sets.
- `computed` — the layout root, the style sheets of a document, and which
  nodes become boxes under which parent.
- `grid` — placement of grid items on explicit and automatic lines.
- `table` — the rows, cells, captions and width columns of a table.
- `measure` — greedy line breaking for a fixed-width text measure.
- `wpt_parser`, `testharness`, `runner` — metadata of layout test files,
  their `assert_equals` assertions, outcomes and run summaries.

`app/` holds what works in floating point: the layout algorithms (block,
inline, float, positioning, flexbox, grid, table), computed lengths, the
box tree, reftest comparison and the report of a test run.

`tests/` exercises the library on concrete inputs.
