//! Embedding checkpoints as users name them, and the internal variants that
//! the BERT encoder is loaded from.

use vstd::prelude::*;

verus! {

/// Supported embedding model checkpoints.
#[non_exhaustive]
#[derive(Debug, Clone, Copy, PartialEq, Eq, Structural)]
pub enum EmbeddingModel {
    MiniLmL6,
    MiniLmL12,
    BgeSmallEnV15,
    BgeBaseEnV15,
}

impl Default for EmbeddingModel {
    /// The default checkpoint is MiniLM-L12.
    fn default() -> (model: Self)
        ensures
            model == EmbeddingModel::MiniLmL12,
    {
        EmbeddingModel::MiniLmL12
    }
}

/// The BERT encoder variants that back each public checkpoint.
#[derive(Debug, Clone, Copy, PartialEq, Eq, Structural)]
pub enum BertEmbeddingVariant {
    MiniLmL6,
    MiniLmL12,
    BgeSmallEnV15,
    BgeBaseEnV15,
}

/// Whether a text is content to be indexed or a search query; retrieval
/// models may treat the two differently.
#[derive(Debug, Clone, Copy, PartialEq, Eq, Structural)]
pub enum EmbeddingInputKind {
    Document,
    Query,
}

/// The encoder variant that loads a public checkpoint.
pub open spec fn variant_of_model(model: EmbeddingModel) -> BertEmbeddingVariant {
    match model {
        EmbeddingModel::MiniLmL6 => BertEmbeddingVariant::MiniLmL6,
        EmbeddingModel::MiniLmL12 => BertEmbeddingVariant::MiniLmL12,
        EmbeddingModel::BgeSmallEnV15 => BertEmbeddingVariant::BgeSmallEnV15,
        EmbeddingModel::BgeBaseEnV15 => BertEmbeddingVariant::BgeBaseEnV15,
    }
}

/// The public checkpoint that a loaded encoder variant reports.
pub open spec fn model_of_variant(variant: BertEmbeddingVariant) -> EmbeddingModel {
    match variant {
        BertEmbeddingVariant::MiniLmL6 => EmbeddingModel::MiniLmL6,
        BertEmbeddingVariant::MiniLmL12 => EmbeddingModel::MiniLmL12,
        BertEmbeddingVariant::BgeSmallEnV15 => EmbeddingModel::BgeSmallEnV15,
        BertEmbeddingVariant::BgeBaseEnV15 => EmbeddingModel::BgeBaseEnV15,
    }
}

/// The Hugging Face repository that holds the weights of a variant.
pub open spec fn repo_id_of(variant: BertEmbeddingVariant) -> Seq<char> {
    match variant {
        BertEmbeddingVariant::MiniLmL6 => "sentence-transformers/all-MiniLM-L6-v2"@,
        BertEmbeddingVariant::MiniLmL12 => "sentence-transformers/all-MiniLM-L12-v2"@,
        BertEmbeddingVariant::BgeSmallEnV15 => "BAAI/bge-small-en-v1.5"@,
        BertEmbeddingVariant::BgeBaseEnV15 => "BAAI/bge-base-en-v1.5"@,
    }
}

impl From<EmbeddingModel> for BertEmbeddingVariant {
    fn from(value: EmbeddingModel) -> (variant: Self) {
        match value {
            EmbeddingModel::MiniLmL6 => BertEmbeddingVariant::MiniLmL6,
            EmbeddingModel::MiniLmL12 => BertEmbeddingVariant::MiniLmL12,
            EmbeddingModel::BgeSmallEnV15 => BertEmbeddingVariant::BgeSmallEnV15,
            EmbeddingModel::BgeBaseEnV15 => BertEmbeddingVariant::BgeBaseEnV15,
        }
    }
}

impl vstd::std_specs::convert::FromSpecImpl<EmbeddingModel> for BertEmbeddingVariant {
    open spec fn obeys_from_spec() -> bool {
        true
    }

    open spec fn from_spec(v: EmbeddingModel) -> Self {
        variant_of_model(v)
    }
}

impl BertEmbeddingVariant {
    /// The public checkpoint that this variant was loaded for.
    pub fn embedding_model(self) -> (model: EmbeddingModel)
        ensures
            model == model_of_variant(self),
    {
        match self {
            BertEmbeddingVariant::MiniLmL6 => EmbeddingModel::MiniLmL6,
            BertEmbeddingVariant::MiniLmL12 => EmbeddingModel::MiniLmL12,
            BertEmbeddingVariant::BgeSmallEnV15 => EmbeddingModel::BgeSmallEnV15,
            BertEmbeddingVariant::BgeBaseEnV15 => EmbeddingModel::BgeBaseEnV15,
        }
    }

    /// The Hugging Face repository id of this variant's weights.
    pub fn repo_id(&self) -> (id: &'static str)
        ensures
            id@ == repo_id_of(*self),
    {
        match self {
            BertEmbeddingVariant::MiniLmL6 => "sentence-transformers/all-MiniLM-L6-v2",
            BertEmbeddingVariant::MiniLmL12 => "sentence-transformers/all-MiniLM-L12-v2",
            BertEmbeddingVariant::BgeSmallEnV15 => "BAAI/bge-small-en-v1.5",
            BertEmbeddingVariant::BgeBaseEnV15 => "BAAI/bge-base-en-v1.5",
        }
    }
}

/// Mapping a checkpoint to its encoder variant and that variant back to a
/// checkpoint gives the checkpoint that was started from.
pub proof fn lemma_model_round_trip(model: EmbeddingModel)
    ensures
        model_of_variant(variant_of_model(model)) == model,
{
}

/// Every encoder variant is the one loaded for the checkpoint it reports.
pub proof fn lemma_variant_determined_by_model(variant: BertEmbeddingVariant)
    ensures
        variant_of_model(model_of_variant(variant)) == variant,
{
}

/// Distinct checkpoints load distinct encoder variants.
pub proof fn lemma_variant_of_model_injective(a: EmbeddingModel, b: EmbeddingModel)
    ensures
        variant_of_model(a) == variant_of_model(b) ==> a == b,
{
}

} // verus!
