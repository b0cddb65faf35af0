# Spectral Intelligence

Spectral graph theory analysis for Meilisearch HNSW vector indexes, and the planning of document
retrieval requests. The logic is a Verus library: what each function returns is stated in its
contract and proved.

## Layout

- `src/`: the verified library.
  - `adjacency`, `labels`, `text`, `json`: reading graphs and ground-truth labels.
  - `matrix`, `laplacian_laws`, `connectivity`: adjacency, degree and Laplacian matrices
    (`L = D - A`), laws of the Laplacian, and what it tells of connected components.
  - `eigen`: which eigenpairs to keep, and the eigengap heuristic.
  - `cheeger`: graph conductance by a sweep along the Fiedler vector.
  - `kmeans`, `clusters`: clustering of the eigenvectors, and cluster sizes.
  - `quality`: the Adjusted Rand Index, over counts of pairs.
  - `drift`: comparison with an earlier snapshot.
  - `synthetic`: generated test graphs.
  - `ordering`: the order of floating-point numbers by their bit patterns, and stable sorting.
  - `federation`, `documents_retrieval`: federated searches and multi-searches.
  - `random`: random choices.
- `tests/`: tests of the library.
- `app/`: the command line program, files, and floating-point numerics.

Floating-point arithmetic is not verified: the program computes distances, gaps and norms, and the
library compares them and decides. Where a score is a ratio of counts, the library computes the
counts exactly, and the program divides: conductance and the shift of the distribution over clusters
are handed out as fractions, the Adjusted Rand Index as the four numbers of pairs that it is computed
from.

## Usage

```bash
spectral-intelligence analyze --index adjacency.json --labels labels.json --output snapshot.json
spectral-intelligence analyze --index v2.json --baseline v1-snapshot.json --output v2-snapshot.json
spectral-intelligence drift --before v1-snapshot.json --after v2-snapshot.json --threshold 0.15
spectral-intelligence generate --n 1000 --clusters 5 --output test-adj.json
```

An adjacency file is a JSON array of neighbor arrays, a JSON object with such an array under
`"neighbors"`, or text with one line `node_id neighbor1 neighbor2 ...` per node. A labels file is a
JSON array of integer labels, one per vector, or a JSON object from vector index to label.
