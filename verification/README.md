# auto-palette

The integer core of colour-palette extraction, verified with Verus, and the
floating-point code around it.

- `src/` is the verified library: agglomerative clustering and its
  dendrogram, the labelling steps of DBSCAN and DBSCAN++, grouping of points
  by cluster label, grid and regular-interval seeding, matrix views of point
  grids, farthest-point sampling over integer distance keys, stable
  descending ranking, the labelling of DBSCAN image segmentation, and the
  error and theme types. Every public function carries a contract, and the
  laws that relate functions are public proof functions.
- `tests/` runs the library on concrete values.
- `app/` holds what measures points with floating-point numbers: number
  conversions, metrics, k-d tree and linear neighbour search, k-means, SLIC,
  SNIC, the sampling strategies that weigh real scores, segment bookkeeping,
  colour conversion, and the error types with their messages. It turns the
  measured distances and scores into the integer keys and neighbourhoods
  that the library takes.
