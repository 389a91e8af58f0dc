# raytracer

A ray tracer whose integer side is a verified library.

`src/` is checked by Verus. It holds:

- `compositor`: RGBA colors with saturating 8-bit channels, pixel surfaces,
  the walk that divides a surface into render tiles, and merging finished
  tiles back. `tiling` proves that the tiles cover every pixel exactly once
  and that merging them in any order paints the whole image.
- `util`: writing and reading plain-text PPM (with a proof that a written
  image reads back), decoding other image formats through the `image`
  crate, and reading the structure of OBJ model files (`objmodel`).
- `textures`, `renderer`, `scenes`, `kdtree`: the data types that the
  program shares with the library.

`app/` is the program around the library: vectors, matrices, geometry,
materials, lights, the octree and photon map, the renderer's shading, the
scenes and the camera animation, all of which compute in floating point, and
the file, thread and terminal work. Run it with a scene configuration:

    raytracer sample-config.json

`tests/` exercises the library on concrete inputs.
