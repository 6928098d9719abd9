# satteri

Verified building blocks for a CommonMark / MDX parser that stores its
documents as arena-allocated trees: the arena and its builder, and the
byte-level scanners that the block and inline passes call (MDX expressions,
JSX tags and elements, ESM blocks, literal autolinks, labels, attribute
blocks, the special-byte walk), with the text normalizations applied while a
tree is built. The block grammar and the event-to-tree conversion are not
part of this crate. Every function in `src/` carries a contract that Verus
proves; the calls into `memchr`, `unicode-id-start`, `oxc_parser` and std's
Unicode tables stand behind small trusted wrappers whose contracts say what
those functions return.

## Layout

- `src/arena.rs`, `builder.rs`, `read_arena.rs`, `codec.rs`, `line_index.rs`,
  `options.rs`: the tree store, its SAX-style builder, type-data encoding,
  offset-to-position mapping and parser options.
- `src/special_bytes.rs`, `ascii.rs`, `search.rs`, `text.rs`: byte classes,
  the special-byte table and bitmap, `memchr` searches, and the std string
  operations the library relies on.
- `src/firstpass.rs`, `inline_scope.rs`, `math_scope.rs`: scanners of the
  first pass and the scope checks that decide whether a byte opens an inline
  construct (code spans, math spans, link destinations, autolink URLs, open
  JSX tags).
- `src/mdx_lex.rs`, `mdx.rs`, `tag_name.rs`, `jsx_attrs.rs`, `jsx_tag.rs`,
  `continuation.rs`, `js_check.rs`: MDX: where expressions, tags, elements and
  ESM blocks end, how a tag reads (name, attributes), the dedenting of
  continuation lines, the parse of ESM blocks with `oxc_parser`, and what a
  JavaScript parse result means.
- `src/post_passes.rs`: literal autolinks (URLs and emails).
- `src/delim_runs.rs`: whether a run of `*`, `_`, `~`, `^` or quotes can
  open or close (flanking rules, with the GFM, table and smart-punctuation
  refinements; Unicode punctuation is asked of a callback).
- `src/block_ends.rs`: where a block's mdast position ends (trailing line
  endings, blank lines after indented code, marker-only lines after nested
  block quotes and lists), reading the first-pass tree through plain values.
- `src/labels.rs`, `heading_attrs.rs`, `directive_attrs.rs`, `normalize.rs`:
  labels, heading and directive attribute blocks, identifiers and inline HTML.
- `app/lib.rs`: the parses of expression bodies with `oxc` and the walk over
  their syntax tree (an impl of oxc's `Visit` trait), handing plain values
  to `js_check`.
- `tests/`: the tests, run against the compiled library.

Each recursive `spec fn` states what a scanner computes in the most direct
form the grammar allows; the executable function's `ensures` ties its result
to it. Laws that relate several functions (round trips, parent links,
closing delimiters, idempotence) are public `proof fn`s named `lemma_*`.
