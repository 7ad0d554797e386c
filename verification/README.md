# crush

Compression of tool output before a model reads it: `ls`, `ps` and `git log` listings,
JSON arrays of objects, and logs. The library is verified with Verus: every function
states what it returns, and the laws that hold of the whole stand beside the functions
as proof functions.

| Module | What it holds |
|---|---|
| `compress` | the pipeline, its size limits and its provenance line |
| `transforms::columnar` | the columnar fold, its inverse, and the proof of what the pair restores |
| `transforms::schema` | the tools that are recognised, and their columns |
| `transforms::tabular` | a JSON array of objects, or the largest one nested in a value, as a table |
| `transforms::text` | escape sequences, blank and repeated lines, encoded data, path prefixes |
| `protocol` | framed JSON messages |
| `session` | the requests of a session |
| `stats` | what a session has saved, and its report |
| `json` | what is taken from `serde_json`, with the contracts that are trusted |
| `chars`, `lines`, `markers` | text as characters and lines, and the markers of the format |

`app/` is the process around the library: standard input and output, and the `--unfold`
decoder.

## What the fold keeps

`unfold` gives back, of a folded listing, the line that was held aside and every row with
its field values and its tail as they were, empty tails among them. Only the padding
between columns is lost. A text in which a carriage return would be lost is not folded. The
statement is `transforms::columnar::lossless::lemma_unfold_restores_rows`; it leaves out
only texts whose held-aside line is itself a line of the folded form.
