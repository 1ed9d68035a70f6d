# wikiwho

Token-level authorship of wiki pages: which revision, and so which editor, first
wrote each token of a page, and when it was removed and put back.

The library under `src/` is verified with Verus. It reads the revisions of a page
one after the other, splits each into paragraphs, sentences and tokens, and decides
at each of the three levels what is reused from the past and what is new.

| Module | What it holds |
|--------|---------------|
| `text`, `tokenize` | characters, splitting and joining, the tokenizer |
| `matcher`, `transcript`, `differ`, `diff` | sequence matching and edit transcripts |
| `buckets`, `structures` | the arenas that hold tokens, sentences and paragraphs |
| `spam`, `cascade`, `pipeline` | vandalism checks, the three levels, one revision |
| `first_revision` | a first revision makes the tokens of its text, in order |
| `readback` | a stored revision reads back as the tokens of its text |
| `uniqueness` | no revision holds a token twice |
| `lifetimes` | the lists of a token tell when it was removed and put back |
| `json`, `response`, `whocolor` | values, the token response, the colouring data |
| `whocolor_wikitext`, `whocolor_template_strip`, `whocolor_html` | marking tokens in a page |
| `mwclient`, `cache_miss` | what a wiki is asked and what its answers mean |
| `index`, `params`, `state`, `handlers` | the decisions of the HTTP service |
| `ingest` | the decisions of the stream consumer |
| `capture`, `compare` | the decisions of the fixture tools |
| `outside` | what is taken on trust from other crates |

`app/` holds the programs around it: sockets, files, the clock, and serialisation.
`tests/` runs the library.

What the proofs rest on is in `src/outside.rs` and in the two declarations of `src/text.rs`:
the MD5 digest, regular expressions, lowercasing, the HTML parser, the JSON parser,
percent-encoding and the debug form of a string.
