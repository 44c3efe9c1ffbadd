use akuna_embed::{
    BertEmbeddingVariant, EmbeddingInputKind, EmbeddingModel, TextEmbeddingOptions,
};

#[test]
fn api_model_mapping_converts_all_public_variants() {
    assert_eq!(
        BertEmbeddingVariant::from(EmbeddingModel::MiniLmL6),
        BertEmbeddingVariant::MiniLmL6
    );
    assert_eq!(
        BertEmbeddingVariant::from(EmbeddingModel::MiniLmL12),
        BertEmbeddingVariant::MiniLmL12
    );
    assert_eq!(
        BertEmbeddingVariant::from(EmbeddingModel::BgeSmallEnV15),
        BertEmbeddingVariant::BgeSmallEnV15
    );
    assert_eq!(
        BertEmbeddingVariant::from(EmbeddingModel::BgeBaseEnV15),
        BertEmbeddingVariant::BgeBaseEnV15
    );
}

#[test]
fn api_model_metadata_returns_bge_repo_ids() {
    assert_eq!(
        BertEmbeddingVariant::BgeSmallEnV15.repo_id(),
        "BAAI/bge-small-en-v1.5"
    );
    assert_eq!(
        BertEmbeddingVariant::BgeBaseEnV15.repo_id(),
        "BAAI/bge-base-en-v1.5"
    );
}

#[test]
fn api_options_default_uses_minilm_l12() {
    assert_eq!(
        TextEmbeddingOptions::default().model,
        EmbeddingModel::MiniLmL12
    );
}

#[test]
fn api_options_default_has_no_cache_dir() {
    assert_eq!(TextEmbeddingOptions::default().cache_dir, None);
}

#[test]
fn api_model_default_is_minilm_l12() {
    assert_eq!(EmbeddingModel::default(), EmbeddingModel::MiniLmL12);
}

#[test]
fn api_model_metadata_returns_minilm_repo_ids() {
    assert_eq!(
        BertEmbeddingVariant::MiniLmL6.repo_id(),
        "sentence-transformers/all-MiniLM-L6-v2"
    );
    assert_eq!(
        BertEmbeddingVariant::MiniLmL12.repo_id(),
        "sentence-transformers/all-MiniLM-L12-v2"
    );
}

#[test]
fn api_loaded_variant_reports_requested_model() {
    let models = [
        EmbeddingModel::MiniLmL6,
        EmbeddingModel::MiniLmL12,
        EmbeddingModel::BgeSmallEnV15,
        EmbeddingModel::BgeBaseEnV15,
    ];
    for model in models {
        assert_eq!(BertEmbeddingVariant::from(model).embedding_model(), model);
    }
}

#[test]
fn api_variant_round_trips_through_model() {
    let variants = [
        BertEmbeddingVariant::MiniLmL6,
        BertEmbeddingVariant::MiniLmL12,
        BertEmbeddingVariant::BgeSmallEnV15,
        BertEmbeddingVariant::BgeBaseEnV15,
    ];
    for variant in variants {
        assert_eq!(BertEmbeddingVariant::from(variant.embedding_model()), variant);
    }
}

#[test]
fn api_input_kinds_differ() {
    assert_ne!(EmbeddingInputKind::Document, EmbeddingInputKind::Query);
}

#[test]
fn api_options_keep_cache_dir_path() {
    let options = TextEmbeddingOptions {
        cache_dir: Some(std::path::PathBuf::from("/tmp/hf-cache")),
        ..Default::default()
    };
    assert_eq!(options.model, EmbeddingModel::MiniLmL12);
    assert_eq!(
        options.cache_dir,
        Some(std::path::PathBuf::from("/tmp/hf-cache"))
    );
}
