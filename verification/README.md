# vectordb

Verified building blocks of a vector database with versioned, lazily loaded graph nodes.

- `node`, `types`, `float`: nodes, their values and their links.
- `cache`: the items that references point at, in memory or found by their place in an index file.
- `pairs`: what it means for two graphs to agree, walked in step from a pair of items.
- `steps`: the order in which a comparison goes, and so what it has seen when it ends.
- `equality`: `EqualityTester` and `EqualityTest`, which decide whether two graphs agree; cycles
  and shared items are walked once.
- `equality_laws`: what holds of the comparison as a whole. Having the same graph is symmetric and
  transitive, and reflexive where every item that links lead to can be loaded and has no NaN
  distance. The comparison sees every difference that a route of links can lead to, it compares a
  pair at most once, and a faithful copy compares equal.
- `versions`: validation of version lists, in which the entry at position `i` is `4^i` versions
  later.
- `api`, `rpc`: what the endpoints `fetch` and `search` ask of a store and what they answer.
- `index_file`: names of index files.

`app/` holds the web handlers and the file handling around the library.
