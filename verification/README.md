# ascendustry

The decisions and bookkeeping of the Ascendustry voxel game, written in Verus
and proved against their contracts.

- `src/` is the library. Each module states what its functions return and
  change over mathematical models (`Seq`, `Map`, `Set`, integers), and the
  laws that relate several calls stand there as proof functions. The largest
  part is the GPU buffer allocator (`allocator.rs`, `gap.rs`,
  `upload_order.rs`): where each entry goes, which bytes stay free, and the
  GPU work recorded for the renderer, modelled down to the contents of the
  buffer that this work produces.
- Calls into `rustc-hash` and into std items that Verus has no
  specification for go through small wrappers marked
  `#[verifier::external_body]`, each with a doc comment saying what is
  believed of the outside function (`fx.rs`, `id_pool.rs`, `server.rs`).
- `tests/` runs the library on concrete values.
- `app/` is what cannot be proved here: the wgpu objects, the files, the
  terminal, the clock, other processes, and the floating point geometry and
  noise. It hands plain values to the library and carries out the work the
  library asks for.
