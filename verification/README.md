# ikigai_sexpr

One s-expression datum for queries, graphs and code, written in Verus: every function states
what it returns, and Verus proves it.

| module | what it holds |
|---|---|
| `datum` | `Sexpr`, its mathematical model `Datum`, and the errors of the pure layers |
| `reader`, `printer`, `roundtrip`, `reading_laws` | text to datum and back, and what holds of reading and printing |
| `terms`, `sparql`, `clause_laws` | a `(select …)` to SPARQL, and what holds of its clauses |
| `rdfgraph`, `turtle`, `compile_laws` | a `(graph …)` to Turtle, and what holds of both compilers |
| `codegraph`, `digest`, `order`, `encode` | any datum to its content-addressed code graph |
| `quads`, `code_rdf`, `decode`, `codec_laws`, `row_laws` | a code graph back to the exact datum, and the laws of the codec |
| `endpoint` | the four transreptors as functions of the documents they are handed |
| `text`, `lines` | characters, numerals, quoted literals, and rows of texts |

`app/` binds the four transreptors to a kernel.

What is believed without proof of other crates stands in three places: `digest` (SHA-256 of the
`sha2` crate), `quads` (the Turtle parser of the `oxrdfio` crate) and `text` (`String::push`).

## Limits

- The reader refuses a text whose lists nest deeper than 4096, and the decoder refuses a graph
  that does, so that whatever is read survives the trip through a graph.
- Two different lists share a node of a code graph only where SHA-256 has a collision; the code
  graph of a datum decodes to that datum where its different lists have different nodes.
- A graph is refused where a label is not bound or where the Turtle text does not read back as its
  triples (an IRI that is not absolute, a malformed language tag), so what comes out is RDF.
