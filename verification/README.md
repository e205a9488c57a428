# rgsplat

3D Gaussian splatting from a video: frames, camera poses, a model trained on them, and the
`.ply` and `.splat` files that hold it.

- `src/` is the library.  It is written in Verus: every function has a contract, and the
  contracts are proved.  Floating-point arithmetic is not part of it.  Where an algorithm needs
  some (the exponent of a splat at a pixel, one update of Adam), the caller hands in a function,
  and the contract says on which values it is called and how the results are put together.
  Floats are passed as bit patterns, whose order and conversions the library knows.
- `app/` is the program around it: the floating-point kernels, threads, files, ffmpeg and COLMAP,
  the graphics card, the command line and a Python module.
- `tests/` runs the library with real kernels.

| module | what it holds |
| --- | --- |
| `num` | bit patterns and their order, bytes, text, stable ordering, folds over kernels, sums |
| `math` | Gaussians, cameras, covariances, screen boxes and frustums, spherical harmonics |
| `cpu` | projection, tiles, compositing, its reverse, blurs, the photometric loss, framebuffers |
| `gpu` | buffer layouts, depth order and compositing of projected splats |
| `io` | `.ply`, `.splat`, training images, `transforms.json` |
| `pipeline` | optimiser, densification, training, stages of a run, COLMAP's files |
