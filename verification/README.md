# uvec

A minimal vector-graphics data model: a planar arrangement of cubic bezier
curves with face-based fills, verified with Verus.

## Model

- A **Scene** owns vertices, curves and fills. Curves are cubic beziers whose
  endpoints are shared vertices; control points are stored per curve.
- Curves never cross: intersections (including self-intersections) are resolved
  by splitting curves at the crossing and creating a shared vertex. Curves that
  run along each other are split where one ends beside the other, and the pieces
  that coincide become one. Vertices closer than the snap distance merge. A
  **fill is a face** of the arrangement:
  one outer loop of half-edges plus zero or more hole loops.
- Every fill remembers the point it was created at (its **anchor**). After each
  edit its loops are derived anew as the face containing the anchor; if that
  face is unbounded, the fill is deleted.
- Curve tags and fill payloads are opaque numbers. They ride through every
  split, extraction and merge.

## Numbers

The library holds no floating-point arithmetic. A `Scalar` is the bits of an
IEEE double. Comparing scalars is done (and proved) on the bits; the six
operations `+ - * / sqrt atan2` come from the caller as an arithmetic unit,
wrapped in a `Calc`. Contracts speak of the arithmetic that the unit computes,
whatever that is. `app/` supplies the machine's own arithmetic and a scene with
`f64` coordinates that can be serialized.

An operation that would have to put values in order of which one is not a number,
or whose split/snap pipeline does not come to rest, returns a `Fault` and leaves
the scene as it was.

## Layout

| File | Holds |
|---|---|
| `scalar`, `calc`, `point`, `order`, `error` | numbers, arithmetic, points, sorting, errors |
| `geom` | evaluating, splitting, flattening and intersecting curves |
| `graph` | vertices and curves, and the rendered polyline of a curve |
| `pipeline`, `integrate` | the rules (model) and running them |
| `planar`, `lineage` | what the rules restore: planarity, tags, ids |
| `walk`, `locate`, `islands`, `face` | half-edges and face walks, rays, components, tracing a face |
| `around`, `kept` | what a face depends on, and what is left of it when curves go |
| `scene`, `fill`, `query` | edits, fills, spatial queries |
| `graft`, `subgraph` | copying curves, extract and merge |
| `parts` | a scene as plain slots |
| `laws` | what holds of every scene, whatever has been done to it |

The functions named `law_...` are the statements to read first.
