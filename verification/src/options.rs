//! Options that choose which checkpoint to load and where to cache it.

use vstd::prelude::*;

use std::path::PathBuf;

use crate::model::EmbeddingModel;

verus! {

/// `std::path::PathBuf`, carried through as an opaque value: the library
/// only stores the cache directory and never looks inside it.
#[verifier::external_type_specification]
#[verifier::external_body]
pub struct ExPathBuf(PathBuf);

/// Options for loading a text embedding model.
#[derive(Debug, Clone)]
pub struct TextEmbeddingOptions {
    /// Which embedding checkpoint to load.
    pub model: EmbeddingModel,
    /// Optional Hugging Face cache directory override.
    pub cache_dir: Option<PathBuf>,
}

impl Default for TextEmbeddingOptions {
    /// The default checkpoint with the default cache directory.
    fn default() -> (options: Self)
        ensures
            options.model == EmbeddingModel::MiniLmL12,
            options.cache_dir is None,
    {
        TextEmbeddingOptions { model: EmbeddingModel::default(), cache_dir: None }
    }
}

} // verus!
