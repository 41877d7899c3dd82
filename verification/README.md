# fff_index

A layered, in-memory index of file paths with fuzzy ranking, written in Verus.

- `src/index`: layers of the index, building them off-line, their stored form.
- `src/file_picker`: the index itself: adding, importing, exporting and merging
  layers, replacing the base scan.
- `src/score`: ranking of files and directories, highlighting of matches.
- `src/gpu`: what a GPU matcher uploads, runs and reads back.
- `src/prototype`: host-side twins of the shaders, and what measuring takes.
- `src/parallelism.rs`: how many threads to use.
- `app`: files, thread pools, the GPU, the C interface and benchmarks. Shader
  sources that do not depend on the needle are handed in by the caller.

Fuzzy matching itself is done by `neo_frizbee`; ranges are kept in `smallvec`,
and path lookups in `ahash` maps. Their contracts stand beside the wrappers.
