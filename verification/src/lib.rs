//! Text embedding checkpoints, load options and the batching logic that
//! turns a list of input texts into model-sized batches and a flat output
//! tensor back into one embedding row per input.

pub mod batching;
pub mod model;
pub mod options;

pub use batching::{
    batch_size_or_default, join_batch_rows, last_embedding, plan_batches, split_rows, EmbedError,
    DEFAULT_BATCH_SIZE,
};
pub use model::{BertEmbeddingVariant, EmbeddingInputKind, EmbeddingModel};
pub use options::TextEmbeddingOptions;
