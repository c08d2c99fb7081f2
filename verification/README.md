# am_scene

The decision-making core of an Alight Motion scene importer, written in Verus
and verified: what the importer decides about a scene independently of how it
is drawn.

`src/` (verified):

- `schema` — the scene model as far as the decisions read it.
- `validation`, `report` — which effects and layer kinds of a scene are
  supported, layer counts, and the figures a shown report is made of.
- `color`, `blending`, `sdf` — `#AARRGGBB` parsing, the packed color layout,
  blend-mode names and shader codes, SDF shape indices.
- `masks` — which mask layers clip which layers, inheritance of masks down
  the layer tree, and lifting masks onto embedded scenes rendered to their
  own texture.
- `ids`, `flatten` — fresh ids for echo copies and for flattened nested
  layers, with every reference to an old id rewritten.
- `path`, `fields`, `easing` — the token grammar of shape path data, of
  comma-separated vector values and of easing descriptions.
- `components`, `effects`, `text` — layer names and kinds, the spawn filter,
  effect-id decisions, string helpers.

`app/` holds what is not verified: floating-point views of colors, codes,
vectors, path vertices and easing curves, the process-wide id counter,
applying depth corrections after flattening, serializable report copies, and
console output of a report.

Not in this crate: the engine side of the importer. Spawning entities, shape
and text materials, effect uniforms, the per-layer collection of animated
transforms, and the timing plans of embedded scenes are all built on the Bevy
engine and on floating-point geometry and time. Bevy's dependency tree is
larger than this build allows, and floating point is outside what the verified
library holds, so that code is neither verified here nor carried into `app/`.
What those steps decide in integers and strings (masks, ids and flattening,
validation, the spawn filter, the sprite fill choice, the token rules of
paths, vectors and easings) is what `src/` verifies.
