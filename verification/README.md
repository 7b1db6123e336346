# bezier

Verified combinatorial core of a toolkit for Bézier curves and triangles.

The numeric kernels work on floating-point coordinates; what they decide and
how they index their data is kept in the library under `src/` and proved with
Verus:

- `hull`: binary search in sorted indices, selection sort with removal of
  repeated points, the monotone-chain convex hull and the separating-axis
  collision test, each driven by the numeric predicate it is handed;
- `chain` and `hull_geometry`: for an orientation that obeys the rules of
  exact orientations, the chains the hull scan finds are exactly the strict
  hull vertices, and the hull of a hull is itself;
- `orientation`: the exact integer cross product obeys those rules on points
  sorted by x then y, so the hull results hold for integer points outright;
- `triangle`: the row-by-row layout of a triangle's control points and the
  neighbour triples used by de Casteljau's algorithm and by the derivative;
- `intersection`: the per-round decisions of curve-curve intersection by
  subdivision, the bookkeeping of Newton's method and the coincidence test;
- `curve`: which curves can be degree-reduced and the status of a quadrature;
- `validate`: checks on the arguments handed in from Python;
- `status`: the status codes.

`app/` holds the floating-point kernels, exported with the C ABI, and the
Python module built on them; they call into the library for every decision
listed above.
