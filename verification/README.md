# galaxy

A procedural galaxy at full scale: exact coordinates, content computed on demand from a seed, and
a best-first octree walk that decides what is visible. The logic is verified with Verus.

- `src/coord.rs` — positions as whole meters, and the floating origin
- `src/ieee/` — correctly rounded `binary64` and `binary32` arithmetic on encodings
- `src/maths.rs` — the elementary functions, which the caller supplies
- `src/seed.rs`, `src/draws.rs`, `src/params.rs`, `src/generate.rs` — what a node of the tree holds
- `src/node.rs`, `src/queue.rs`, `src/cache.rs`, `src/octree.rs`, `src/nearest.rs` — the walk
- `src/render/` — camera, projection, and the data that the GPU draws
- `src/viewer.rs`, `src/tasks.rs` — the viewer's state, and the build helper's steps
- `src/laws/` — what holds of the library as a whole
- `app/` — the window, the GPU and the shell

Numbers are encodings (`Double`, `Single`) whose operations are computed and proved in the
library, so that a galaxy is the same on every machine up to the supplied elementary functions.
Where a generator or a cache of another crate is called, the contract of the call says what is
relied on.
