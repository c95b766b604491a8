# lasgun

A ray tracer whose integer core is verified with Verus.

`src/` is the verified library:

- `morton.rs`: Morton codes and the stable radix sort of primitives by code.
- `lbvh.rs`: LBVH treelets emitted from the sorted primitives.
- `sah.rs`: the upper levels of the hierarchy, split as a surface area
  heuristic plans.
- `flat.rs`: the depth-first node layout.
- `accel.rs`: building the whole hierarchy; `traverse.rs`: intersecting a ray
  with it; `cover.rs`: every primitive sits in exactly one leaf, a walk that
  hits every bound tests each once, a walk never skips a primitive whose
  bounds the ray meets, and every node's bounds contain its primitives';
  `scan.rs`: intersecting comes to a linear scan over all primitives when the
  primitive test keeps the nearer hit.
- `film.rs`, `capture.rs`: the row-major pixel buffer and how rendering is
  split between workers.
- `bxdf.rs`: scattering function flags and picking a BSDF component.
- `mesh.rs`: triangle mesh index data, its triangles in order, and the meshes
  of a scene.
- `sampling.rs`: the per-pixel sample grid and drawing light samples.
- `objtext.rs`: which `.obj` texts the `obj` reader reads, refuses or panics
  on; `objfile.rs`: parsing `.obj` text and turning it into a triangle mesh.
- `native.rs`: the wrapper trait of the language bindings.

`app/` holds the floating-point renderer around it (geometry, materials, light
transport, cameras), reading files, threads and image output.
`tests/` exercises the library.
