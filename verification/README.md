# raytracer

The integer core of a tile-based path tracer, verified with Verus, and the
renderer around it.

`src/` is the verified library:

- `color` packs 8-bit channels into the `0x00RRGGBB` words of the frame buffer
  and splits them again (both round trips are proved).
- `frame_buffer` holds the packed pixels and lays fixed-size tiles over them.
- `tile_manager` numbers the tiles, enumerates the pixels and the outline of a
  tile, tracks the tiles being rendered and paints their outlines into a
  preview buffer. The tiles are proved to split the frame with neither gap nor
  overlap, so each pixel is written by exactly one rendering task.
- `random` wraps `rand`'s small generator.
- `perlin` builds the lattice permutations of Perlin noise (proved to be
  permutations) and hashes lattice corners to gradient indices.
- `texture` holds the parity rule of the checker texture.

`app/` is the renderer itself: the floating-point geometry, materials,
textures and camera, the parallel render loop, the progress bar, the optional
preview window and the PPM output.
