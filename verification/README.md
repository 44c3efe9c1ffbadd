# akuna_embed

Text embedding checkpoints and the batching logic around a BERT encoder,
verified with Verus.

- `src/model.rs`: the public checkpoints, the encoder variants they load,
  their Hugging Face repository ids, and the proof that the map from
  checkpoints to encoder variants and the map back are inverse to each other.
- `src/options.rs`: load options and their defaults (the cache directory is
  a `PathBuf`, carried as an opaque value).
- `src/batching.rs`: batch-size resolution, batch planning, splitting a
  row-major output buffer into rows, joining the rows of all batches, and
  the proofs that batches and rows partition their input and join back into
  it, that joined batch rows line up with the inputs whatever the batch
  size, and that the rows of a matrix's row-major data are the matrix.
- `app/`: the `burn` tensor side (reading output tensors, driving an encoder
  over the planned batches).
