# simplepaint

A small paint program: a window with a tool panel and a canvas that can be
panned, zoomed and drawn on with the pointer.

- `src/` is the verified library: the RGBA pixel buffer (`CanvasBuffer`, and
  `Canvas` without change tracking), pixel, scanline, line and disk drawing,
  the test that a line may be drawn, and the byte export used for GPU upload.
  `src/canvas/raster.rs` holds the mathematical model the contracts are
  stated in (row-major addressing, Bresenham's walk, disks, integer square roots) and the
  lemmas about it.
- `app/` is the program around it: winit window and event loop, egui panels,
  pan/zoom camera arithmetic and the scanline/edge intersection (floating
  point), and the wgpu rendering.
- `tests/` exercises the library on concrete canvases.
