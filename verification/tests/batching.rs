use akuna_embed::{
    batch_size_or_default, last_embedding, plan_batches, split_rows, EmbedError,
    EmbeddingInputKind, DEFAULT_BATCH_SIZE,
};

#[test]
fn util_batch_size_default_caps_large_batches() {
    let batch_size = batch_size_or_default(128, None)
        .expect("default batch size should work");
    assert_eq!(batch_size, DEFAULT_BATCH_SIZE);
}

#[test]
fn util_batch_size_default_uses_document_count_when_small() {
    let batch_size = batch_size_or_default(4, None)
        .expect("default batch size should work");
    assert_eq!(batch_size, 4);
}

#[test]
fn util_batch_size_validate_rejects_zero() {
    let error = batch_size_or_default(1, Some(0))
        .expect_err("zero batch size should fail");
    assert!(
        error
            .to_string()
            .contains("batch size must be greater than zero")
    );
}

#[test]
fn util_batch_size_default_is_thirty_two() {
    assert_eq!(DEFAULT_BATCH_SIZE, 32);
    assert_eq!(batch_size_or_default(32, None), Ok(32));
    assert_eq!(batch_size_or_default(33, None), Ok(32));
    assert_eq!(batch_size_or_default(31, None), Ok(31));
}

#[test]
fn util_batch_size_explicit_choice_wins() {
    assert_eq!(batch_size_or_default(4, Some(100)), Ok(100));
    assert_eq!(batch_size_or_default(1000, Some(7)), Ok(7));
}

#[test]
fn util_batch_size_default_rejects_no_documents() {
    assert_eq!(
        batch_size_or_default(0, None),
        Err(EmbedError::ZeroBatchSize)
    );
}

#[test]
fn util_plan_empty_input_needs_no_batch() {
    assert_eq!(plan_batches(0, None), Ok(vec![]));
    assert_eq!(plan_batches(0, Some(0)), Ok(vec![]));
}

#[test]
fn util_plan_rejects_zero_batch_size() {
    assert_eq!(plan_batches(3, Some(0)), Err(EmbedError::ZeroBatchSize));
}

#[test]
fn util_plan_cuts_inputs_into_consecutive_batches() {
    assert_eq!(
        plan_batches(5, Some(2)),
        Ok(vec![(0, 2), (2, 4), (4, 5)])
    );
    assert_eq!(plan_batches(4, Some(2)), Ok(vec![(0, 2), (2, 4)]));
    assert_eq!(plan_batches(2, Some(10)), Ok(vec![(0, 2)]));
}

#[test]
fn util_plan_default_batches_cover_every_input_once() {
    let plan = plan_batches(70, None).expect("plan should work");
    assert_eq!(plan, vec![(0, 32), (32, 64), (64, 70)]);
    let covered: usize = plan.iter().map(|(start, end)| end - start).sum();
    assert_eq!(covered, 70);
}

#[test]
fn util_tensor_rows_split_returns_rows() {
    let values = [1.0f32, 2.0, 3.0, 4.0];
    let rows = split_rows(&values, 2, 2);
    assert_eq!(rows, vec![vec![1.0, 2.0], vec![3.0, 4.0]]);
}

#[test]
fn util_tensor_rows_split_keeps_at_most_row_count() {
    let values = [1, 2, 3, 4, 5, 6];
    assert_eq!(split_rows(&values, 2, 2), vec![vec![1, 2], vec![3, 4]]);
    assert_eq!(split_rows(&values, 0, 2), Vec::<Vec<i32>>::new());
}

#[test]
fn util_tensor_rows_split_keeps_short_last_row() {
    let values = [1, 2, 3, 4, 5];
    assert_eq!(
        split_rows(&values, 10, 2),
        vec![vec![1, 2], vec![3, 4], vec![5]]
    );
    assert_eq!(split_rows::<i32>(&[], 3, 4), Vec::<Vec<i32>>::new());
}

#[test]
fn util_tensor_rows_rejoin_into_buffer() {
    let values: Vec<i32> = (0..12).collect();
    let rows = split_rows(&values, 3, 4);
    assert_eq!(rows.len(), 3);
    assert!(rows.iter().all(|row| row.len() == 4));
    let joined: Vec<i32> = rows.concat();
    assert_eq!(joined, values);
}

#[test]
fn util_single_embedding_takes_last() {
    assert_eq!(
        last_embedding(vec![vec![1, 2], vec![3]], EmbeddingInputKind::Document),
        Ok(vec![3])
    );
    assert_eq!(
        last_embedding(vec![7], EmbeddingInputKind::Query),
        Ok(7)
    );
}

#[test]
fn util_single_embedding_missing_document() {
    let error = last_embedding(Vec::<Vec<f32>>::new(), EmbeddingInputKind::Document)
        .expect_err("no embedding should fail");
    assert_eq!(error, EmbedError::MissingDocumentEmbedding);
    assert_eq!(
        error.to_string(),
        "expected one embedding for a single input document"
    );
}

#[test]
fn util_single_embedding_missing_query() {
    let error = last_embedding(Vec::<Vec<f32>>::new(), EmbeddingInputKind::Query)
        .expect_err("no embedding should fail");
    assert_eq!(error, EmbedError::MissingQueryEmbedding);
    assert_eq!(
        error.to_string(),
        "expected one embedding for a single input query"
    );
}

#[test]
fn util_join_batch_rows_keeps_order() {
    let batches = vec![
        vec![vec![1, 1], vec![2, 2]],
        vec![vec![3, 3]],
        vec![],
        vec![vec![4, 4]],
    ];
    assert_eq!(
        akuna_embed::join_batch_rows(batches),
        vec![vec![1, 1], vec![2, 2], vec![3, 3], vec![4, 4]]
    );
    assert_eq!(
        akuna_embed::join_batch_rows(Vec::<Vec<Vec<f32>>>::new()),
        Vec::<Vec<f32>>::new()
    );
}

#[test]
fn util_joined_batches_give_one_row_per_input() {
    let inputs: Vec<usize> = (0..7).collect();
    let plan = plan_batches(inputs.len(), Some(3)).expect("plan should work");
    let batches: Vec<Vec<Vec<usize>>> = plan
        .iter()
        .map(|&(start, end)| inputs[start..end].iter().map(|&input| vec![input]).collect())
        .collect();
    let rows = akuna_embed::join_batch_rows(batches);
    assert_eq!(rows.len(), inputs.len());
    for (i, row) in rows.iter().enumerate() {
        assert_eq!(row, &vec![i]);
    }
}

fn embed_with_batch_size(inputs: &[i64], batch_size: Option<usize>) -> Vec<Vec<i64>> {
    let plan = plan_batches(inputs.len(), batch_size).expect("plan should work");
    let batches: Vec<Vec<Vec<i64>>> = plan
        .iter()
        .map(|&(start, end)| {
            inputs[start..end].iter().map(|&input| vec![input, input * input]).collect()
        })
        .collect();
    akuna_embed::join_batch_rows(batches)
}

#[test]
fn util_batch_size_does_not_change_rows() {
    let inputs: Vec<i64> = (0..11).collect();
    let unbatched = embed_with_batch_size(&inputs, Some(1));
    for batch_size in [Some(2), Some(3), Some(5), Some(11), Some(50), None] {
        assert_eq!(embed_with_batch_size(&inputs, batch_size), unbatched);
    }
    assert_eq!(unbatched[4], vec![4, 16]);
}

#[test]
fn util_matrix_rows_round_trip() {
    let matrix = vec![vec![1.5f32, -2.0, 0.0], vec![3.25, 4.0, 9.5]];
    let data: Vec<f32> = matrix.concat();
    assert_eq!(split_rows(&data, 2, 3), matrix);
}
