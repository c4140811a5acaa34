# viddupe

A video duplicate finder whose decision logic is verified with Verus.

- `src/` is the verified library: Hamming distances and the majority-vote
  average of perceptual frame hashes, the similarity rule between two sets of
  frame hashes, coarse head/tail hashes and their grouping, the choice of
  non-overlapping duplicate clusters, fpcalc and ffprobe output reading,
  resolution and codec classification, extension and exclude-pattern
  handling, the deletion plan of `prune` (which file each cluster keeps and
  what is deleted), the cache columns of perceptual hashes, and the text
  formats the tool prints. Each public function carries a `requires`/`ensures`
  contract; the `lemma_*` proof functions state properties that span several
  functions (symmetry and the triangle inequality of the distance, disjointness
  of the selected clusters, and others).
- `app/` is the command-line program around it: argument parsing, the
  directory walk, calls to `ffprobe`/`ffmpeg`/`fpcalc`, the SQLite cache,
  progress bars, prompts and deletion, and the floating-point confidence
  scores.
- `tests/` runs the library on concrete values.

Run Verus on `src/lib.rs` to check the proofs. The outside crates (`xxhash-rust`, `regex`,
`humansize`) are reached from `src/` only through small trusted wrappers whose
contracts are documented where they are declared.
