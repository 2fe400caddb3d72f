# ph

A 2D particle physics engine: particles collide inside a world box, a
broad-phase quad tree of volumes finds the pairs worth testing, effects push
particles around, and worker threads share the work.

`src/` is the part whose behaviour is proved with Verus:

- `math::base5`, `math::bb_id`: numbers as base-5 digit strings and the
  quad-tree cell addresses built from them.
- `quad_tree`: a generic quad tree, its split and join, and a lazy
  double-ended post-order iterator.
- `ddvt`: the particle id lists of the broad-phase volumes, how they split
  among children and join back.
- `world`: the trigger bookkeeping (which particles a trigger overlaps).
- `channel`, `pool`: channel ends that know their channel and the jobs
  handed to them; dealing jobs out to workers in turn, each job to the
  worker whose turn it is.
- `particle`, `world_renderer`: particle states, draw lists and colours,
  and the hand-over of each frame to the driver.

`app/` is the program around it: single-precision vectors, boxes, collisions
and integration, the threaded world and volume tree, the OpenGL driver and
the demo scene.
