# sqlx_query

Layers filters, orderings and page positions over SQL that was already written, and proves
with [Verus](https://github.com/verus-lang/verus) that nothing else about the SQL changes.

Four families share the text and value modules at the root of `src/`.

- `template`: a skeleton with sentinels in comments, filled with fragments; sorting, page
  tokens, CEL filters and the allow-list that a struct declares.
- `writer`: a query as a syntax tree, onto which conditions and orderings are grafted.
- `composer`: a query with `/* query.<name> */` slots, into which clauses are spliced.
- `splice`: the smaller composer, over one trait for everything that can be spliced in.

Every function states what it returns over a mathematical view of its arguments. What the
library promises as a whole stands in proof functions whose names begin with `law_`. What it
has from other crates (the SQL and CEL parsers, base64, postcard, chrono, uuid, regex) is
behind small functions marked `external_body`, each with the claim that the proofs rest on.

`app/` holds what needs a driver: encoding values, reading rows, and running what was built.
`tests/` runs the library on concrete values.
