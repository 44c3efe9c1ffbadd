//! Batch sizing, batch planning and the split of a flat, row-major output
//! buffer into one embedding row per input.

use vstd::prelude::*;
use vstd::arithmetic::div_mod::lemma_fundamental_div_mod_converse;
use vstd::arithmetic::mul::lemma_mul_inequality;

use crate::model::EmbeddingInputKind;

verus! {

/// Largest batch used when the caller does not choose a batch size.
pub const DEFAULT_BATCH_SIZE: usize = 32;

/// Errors that the embedding pipeline reports on its own inputs.
#[derive(Debug, Clone, Copy, PartialEq, Eq, Structural)]
pub enum EmbedError {
    /// The chosen (or defaulted) batch size is zero.
    ZeroBatchSize,
    /// Embedding one document produced no embedding.
    MissingDocumentEmbedding,
    /// Embedding one query produced no embedding.
    MissingQueryEmbedding,
}

/// The human-readable message of an error.
pub open spec fn error_message(error: EmbedError) -> Seq<char> {
    match error {
        EmbedError::ZeroBatchSize => "batch size must be greater than zero"@,
        EmbedError::MissingDocumentEmbedding => "expected one embedding for a single input document"@,
        EmbedError::MissingQueryEmbedding => "expected one embedding for a single input query"@,
    }
}

impl EmbedError {
    /// The human-readable message of this error.
    pub fn to_string(&self) -> (message: String)
        ensures
            message@ == error_message(*self),
    {
        match self {
            EmbedError::ZeroBatchSize => "batch size must be greater than zero".to_owned(),
            EmbedError::MissingDocumentEmbedding => {
                "expected one embedding for a single input document".to_owned()
            },
            EmbedError::MissingQueryEmbedding => {
                "expected one embedding for a single input query".to_owned()
            },
        }
    }
}

/// The batch size asked for: the caller's choice, or else the number of
/// documents capped at `DEFAULT_BATCH_SIZE`.
pub open spec fn requested_batch_size(document_count: int, batch_size: Option<usize>) -> int {
    match batch_size {
        Some(size) => size as int,
        None => if document_count < DEFAULT_BATCH_SIZE {
            document_count
        } else {
            DEFAULT_BATCH_SIZE as int
        },
    }
}

/// The batch size to embed `document_count` documents with, or the error
/// when that size is zero.
pub open spec fn resolved_batch_size(document_count: int, batch_size: Option<usize>) -> Result<
    usize,
    EmbedError,
> {
    let size = requested_batch_size(document_count, batch_size);
    if size == 0 {
        Err(EmbedError::ZeroBatchSize)
    } else {
        Ok(size as usize)
    }
}

/// Resolves the batch size for `document_count` documents: the caller's
/// choice if given, else `min(document_count, DEFAULT_BATCH_SIZE)`; a zero
/// size is refused.
pub fn batch_size_or_default(document_count: usize, batch_size: Option<usize>) -> (result: Result<
    usize,
    EmbedError,
>)
    ensures
        result == resolved_batch_size(document_count as int, batch_size),
{
    let default_size = if document_count < DEFAULT_BATCH_SIZE {
        document_count
    } else {
        DEFAULT_BATCH_SIZE
    };
    let size = match batch_size {
        Some(size) => size,
        None => default_size,
    };
    if size == 0 {
        return Err(EmbedError::ZeroBatchSize);
    }
    Ok(size)
}


/// End of the `i`-th piece when `0..len` is cut into pieces of `size`
/// elements, the last one possibly shorter.
pub open spec fn chunk_end(len: int, size: int, i: int) -> int {
    if i * size + size <= len {
        i * size + size
    } else {
        len
    }
}

/// Number of pieces of at most `size` elements that `0..len` is cut into.
pub open spec fn chunk_count(len: int, size: int) -> nat {
    if len <= 0 || size <= 0 {
        0
    } else {
        ((len - 1) / size + 1) as nat
    }
}

/// Half-open bounds of the consecutive pieces of `size` elements (the last
/// one possibly shorter) that `0..len` is cut into.
pub open spec fn chunk_bounds(len: int, size: int) -> Seq<(int, int)> {
    Seq::new(chunk_count(len, size), |i: int| (i * size, chunk_end(len, size, i)))
}

/// Machine bounds read as mathematical integers.
pub open spec fn bounds_view(bounds: Seq<(usize, usize)>) -> Seq<(int, int)> {
    bounds.map_values(|b: (usize, usize)| (b.0 as int, b.1 as int))
}

/// `bounds` cut `0..len`, in order and without gaps or overlaps, into
/// non-empty pieces of `size` elements, only the last of which may be shorter.
pub open spec fn partitions(bounds: Seq<(int, int)>, len: int, size: int) -> bool {
    &&& (bounds.len() == 0 <==> len == 0)
    &&& bounds.len() > 0 ==> bounds[0].0 == 0 && bounds.last().1 == len
    &&& forall|i: int|
        #![trigger bounds[i]]
        0 <= i < bounds.len() ==> bounds[i].0 < bounds[i].1 && bounds[i].1 - bounds[i].0 <= size
    &&& forall|i: int|
        #![trigger bounds[i]]
        0 <= i < bounds.len() - 1 ==> bounds[i].1 == bounds[i + 1].0 && bounds[i].1 - bounds[i].0
            == size
}

/// `k` pieces of `size` cover `0..len` exactly when `k` is the piece count.
proof fn lemma_chunk_count_exact(len: int, size: int, k: int)
    requires
        size > 0,
        len >= 0,
        k >= 0,
        k * size >= len,
        k > 0 ==> (k - 1) * size < len,
    ensures
        k == chunk_count(len, size),
{
    if k > 0 {
        lemma_mul_inequality(0, k - 1, size);
        assert(len > 0);
        assert(k * size == (k - 1) * size + size) by (nonlinear_arith);
        lemma_fundamental_div_mod_converse(len - 1, size, k - 1, len - 1 - (k - 1) * size);
    }
}

/// Where the `i`-th piece starts and ends, for every piece.
proof fn lemma_chunk_shape(len: int, size: int, i: int)
    requires
        len >= 0,
        size > 0,
        0 <= i < chunk_count(len, size),
    ensures
        0 <= i * size < chunk_end(len, size, i) <= len,
        chunk_end(len, size, i) - i * size <= size,
        i < chunk_count(len, size) - 1 ==> chunk_end(len, size, i) == i * size + size,
        i == chunk_count(len, size) - 1 ==> chunk_end(len, size, i) == len,
{
    let q = (len - 1) / size;
    let r = (len - 1) % size;
    assert(len - 1 == q * size + r && 0 <= r < size) by (nonlinear_arith)
        requires
            len >= 1,
            size > 0,
            q == (len - 1) / size,
            r == (len - 1) % size,
    ;
    lemma_mul_inequality(0, i, size);
    lemma_mul_inequality(i, q, size);
    if i < q {
        lemma_mul_inequality(i + 1, q, size);
        assert((i + 1) * size == i * size + size) by (nonlinear_arith);
    } else {
        assert(i == q);
    }
}

/// Cutting `0..len` into pieces of `size` elements partitions it: the pieces
/// are non-empty, consecutive, start at 0, end at `len`, and all but the last
/// hold exactly `size` elements.
pub proof fn lemma_chunks_partition(len: int, size: int)
    requires
        len >= 0,
        size > 0,
    ensures
        partitions(chunk_bounds(len, size), len, size),
{
    let b = chunk_bounds(len, size);
    if len > 0 {
        assert(chunk_count(len, size) > 0);
        lemma_chunk_shape(len, size, 0);
        lemma_chunk_shape(len, size, b.len() - 1);
    }
    assert forall|i: int| #![trigger b[i]] 0 <= i < b.len() implies b[i].0 < b[i].1 && b[i].1
        - b[i].0 <= size by {
        lemma_chunk_shape(len, size, i);
    }
    assert forall|i: int| #![trigger b[i]] 0 <= i < b.len() - 1 implies b[i].1 == b[i + 1].0
        && b[i].1 - b[i].0 == size by {
        lemma_chunk_shape(len, size, i);
        assert((i + 1) * size == i * size + size) by (nonlinear_arith);
    }
}

/// Cuts `0..len` into consecutive pieces of `size` elements, the last one
/// possibly shorter.
fn cut_into_chunks(len: usize, size: usize) -> (bounds: Vec<(usize, usize)>)
    requires
        size > 0,
    ensures
        bounds_view(bounds@) == chunk_bounds(len as int, size as int),
        forall|i: int|
            #![trigger bounds@[i]]
            0 <= i < bounds@.len() ==> bounds@[i].0 < bounds@[i].1 <= len,
{
    let mut bounds: Vec<(usize, usize)> = Vec::new();
    let mut start: usize = 0;
    assert(bounds@.len() * size == 0) by (nonlinear_arith)
        requires
            bounds@.len() == 0,
    ;
    while start < len
        invariant
            size > 0,
            start <= len,
            bounds@.len() * size <= len ==> start == bounds@.len() * size,
            bounds@.len() * size > len ==> start == len,
            bounds@.len() > 0 ==> (bounds@.len() - 1) * size < len,
            forall|i: int|
                #![trigger bounds@[i]]
                0 <= i < bounds@.len() ==> bounds@[i].0 == i * size && bounds@[i].1 == chunk_end(
                    len as int,
                    size as int,
                    i,
                ) && bounds@[i].0 < bounds@[i].1 <= len,
        decreases len - start,
    {
        let ghost k = bounds@.len() as int;
        assert(k * size == start);
        let end: usize = if len - start <= size {
            len
        } else {
            start + size
        };
        bounds.push((start, end));
        start = end;
        assert((k + 1) * size == k * size + size) by (nonlinear_arith);
    }
    proof {
        let k = bounds@.len() as int;
        lemma_chunk_count_exact(len as int, size as int, k);
        assert(bounds_view(bounds@) =~= chunk_bounds(len as int, size as int));
    }
    bounds
}

/// Plans how to embed `input_count` inputs: no batch at all for no input;
/// otherwise the inputs cut, in order, into consecutive batches of the
/// resolved batch size (the last possibly shorter), or the batch-size error.
pub fn plan_batches(input_count: usize, batch_size: Option<usize>) -> (plan: Result<
    Vec<(usize, usize)>,
    EmbedError,
>)
    ensures
        input_count == 0 ==> (plan matches Ok(bounds) && bounds@.len() == 0),
        input_count > 0 ==> match resolved_batch_size(input_count as int, batch_size) {
            Ok(size) => (plan matches Ok(bounds) && bounds_view(bounds@) == chunk_bounds(
                input_count as int,
                size as int,
            )),
            Err(error) => plan == Err::<Vec<(usize, usize)>, EmbedError>(error),
        },
{
    if input_count == 0 {
        return Ok(Vec::new());
    }
    let size = match batch_size_or_default(input_count, batch_size) {
        Ok(size) => size,
        Err(error) => return Err(error),
    };
    Ok(cut_into_chunks(input_count, size))
}

/// The error for a single-text embedding that produced no embedding.
pub open spec fn missing_embedding_error(kind: EmbeddingInputKind) -> EmbedError {
    match kind {
        EmbeddingInputKind::Document => EmbedError::MissingDocumentEmbedding,
        EmbeddingInputKind::Query => EmbedError::MissingQueryEmbedding,
    }
}

/// Takes the embedding of a single input out of the embeddings produced for
/// it: the last one, or the error for `kind` when there is none.
pub fn last_embedding<T>(embeddings: Vec<T>, kind: EmbeddingInputKind) -> (result: Result<
    T,
    EmbedError,
>)
    ensures
        embeddings@.len() > 0 ==> result == Ok::<T, EmbedError>(embeddings@.last()),
        embeddings@.len() == 0 ==> result == Err::<T, EmbedError>(missing_embedding_error(kind)),
{
    let mut embeddings = embeddings;
    match embeddings.pop() {
        Some(embedding) => Ok(embedding),
        None => match kind {
            EmbeddingInputKind::Document => Err(EmbedError::MissingDocumentEmbedding),
            EmbeddingInputKind::Query => Err(EmbedError::MissingQueryEmbedding),
        },
    }
}

/// The rows of a row-major buffer: consecutive runs of `column_count`
/// values (the last possibly shorter), at most `row_count` of them.
pub open spec fn rows_of<T>(values: Seq<T>, row_count: int, column_count: int) -> Seq<Seq<T>> {
    let bounds = chunk_bounds(values.len() as int, column_count);
    let n = if row_count < bounds.len() {
        row_count
    } else {
        bounds.len() as int
    };
    Seq::new(n as nat, |i: int| values.subrange(bounds[i].0, bounds[i].1))
}

/// The contents of each row.
pub open spec fn row_views<T>(rows: Seq<Vec<T>>) -> Seq<Seq<T>> {
    rows.map_values(|row: Vec<T>| row@)
}

/// Splits a row-major buffer into rows of `column_count` values, keeping at
/// most `row_count` of them.
pub fn split_rows<T: Copy>(values: &[T], row_count: usize, column_count: usize) -> (rows: Vec<
    Vec<T>,
>)
    requires
        column_count > 0,
    ensures
        row_views(rows@) == rows_of(values@, row_count as int, column_count as int),
{
    let bounds = cut_into_chunks(values.len(), column_count);
    let n: usize = if row_count < bounds.len() {
        row_count
    } else {
        bounds.len()
    };
    let ghost spec_rows = rows_of(values@, row_count as int, column_count as int);
    let mut rows: Vec<Vec<T>> = Vec::new();
    let mut i: usize = 0;
    while i < n
        invariant
            n <= bounds@.len(),
            n == spec_rows.len(),
            i <= n,
            spec_rows == rows_of(values@, row_count as int, column_count as int),
            bounds_view(bounds@) == chunk_bounds(values@.len() as int, column_count as int),
            forall|j: int|
                #![trigger bounds@[j]]
                0 <= j < bounds@.len() ==> bounds@[j].0 < bounds@[j].1 <= values@.len(),
            rows@.len() == i,
            forall|j: int| #![trigger rows@[j]] 0 <= j < i ==> rows@[j]@ == spec_rows[j],
        decreases n - i,
    {
        let (start, end) = bounds[i];
        assert(bounds_view(bounds@)[i as int] == (start as int, end as int));
        let mut row: Vec<T> = Vec::new();
        let mut j: usize = start;
        while j < end
            invariant
                start <= j <= end <= values@.len(),
                row@ == values@.subrange(start as int, j as int),
            decreases end - j,
        {
            row.push(values[j]);
            j += 1;
        }
        assert(row@ == spec_rows[i as int]);
        rows.push(row);
        i += 1;
    }
    assert(row_views(rows@) =~= spec_rows);
    rows
}

/// The first `k` pieces of a sequence join back into its prefix up to the
/// end of the `k`-th piece.
proof fn lemma_join_chunk_prefix<T>(values: Seq<T>, size: int, k: int)
    requires
        size > 0,
        0 <= k <= chunk_count(values.len() as int, size),
    ensures
        Seq::new(
            k as nat,
            |i: int| values.subrange(i * size, chunk_end(values.len() as int, size, i)),
        ).flatten() == values.subrange(
            0,
            if k == 0 {
                0
            } else {
                chunk_end(values.len() as int, size, k - 1)
            },
        ),
    decreases k,
{
    let len = values.len() as int;
    let pieces = Seq::new(k as nat, |i: int| values.subrange(i * size, chunk_end(len, size, i)));
    if k == 0 {
        assert(pieces =~= Seq::<Seq<T>>::empty());
        assert(values.subrange(0, 0) =~= Seq::<T>::empty());
    } else {
        lemma_join_chunk_prefix(values, size, k - 1);
        lemma_chunk_shape(len, size, k - 1);
        let shorter = Seq::new(
            (k - 1) as nat,
            |i: int| values.subrange(i * size, chunk_end(len, size, i)),
        );
        let last = values.subrange((k - 1) * size, chunk_end(len, size, k - 1));
        assert(pieces =~= shorter.push(last));
        shorter.lemma_flatten_push(last);
        let prev_end = if k - 1 == 0 {
            0
        } else {
            chunk_end(len, size, k - 2)
        };
        if k >= 2 {
            lemma_chunk_shape(len, size, k - 2);
            assert((k - 2) * size + size == (k - 1) * size) by (nonlinear_arith);
        } else {
            assert((k - 1) * size == 0) by (nonlinear_arith)
                requires
                    k == 1,
            ;
        }
        assert(prev_end == (k - 1) * size);
        assert(values.subrange(0, prev_end) + last =~= values.subrange(
            0,
            chunk_end(len, size, k - 1),
        ));
    }
}

/// Cutting a sequence into pieces of `size` elements and joining the pieces
/// back together, in order, gives the sequence: every element lands in
/// exactly one piece, and the pieces keep the order of the elements.
pub proof fn lemma_chunks_rejoin<T>(values: Seq<T>, size: int)
    requires
        size > 0,
    ensures
        rows_of(values, chunk_count(values.len() as int, size) as int, size).flatten() == values,
{
    let len = values.len() as int;
    let k = chunk_count(len, size) as int;
    lemma_join_chunk_prefix(values, size, k);
    let pieces = Seq::new(k as nat, |i: int| values.subrange(i * size, chunk_end(len, size, i)));
    assert(rows_of(values, k, size) =~= pieces);
    if k > 0 {
        lemma_chunk_shape(len, size, k - 1);
    } else {
        assert(len == 0);
    }
    assert(values.subrange(0, len) =~= values);
}

/// A buffer of exactly `row_count * column_count` values splits into
/// `row_count` rows of `column_count` values that join back into the buffer.
pub proof fn lemma_rows_rejoin<T>(values: Seq<T>, row_count: int, column_count: int)
    requires
        column_count > 0,
        row_count >= 0,
        values.len() == row_count * column_count,
    ensures
        rows_of(values, row_count, column_count).len() == row_count,
        forall|i: int|
            0 <= i < row_count ==> (#[trigger] rows_of(values, row_count, column_count)[i]).len()
                == column_count,
        rows_of(values, row_count, column_count).flatten() == values,
{
    let len = values.len() as int;
    if row_count > 0 {
        assert((row_count - 1) * column_count < len) by (nonlinear_arith)
            requires
                len == row_count * column_count,
                column_count > 0,
        ;
    }
    lemma_chunk_count_exact(len, column_count, row_count);
    let rows = rows_of(values, row_count, column_count);
    assert forall|i: int| 0 <= i < row_count implies (#[trigger] rows[i]).len()
        == column_count by {
        lemma_chunk_shape(len, column_count, i);
        if i == row_count - 1 {
            assert(i * column_count + column_count == len) by (nonlinear_arith)
                requires
                    i == row_count - 1,
                    len == row_count * column_count,
            ;
        }
    }
    lemma_chunks_rejoin(values, column_count);
}

/// The rows of every batch, batch after batch, in order.
pub open spec fn joined_rows<T>(batches: Seq<Vec<Vec<T>>>) -> Seq<Seq<T>> {
    batches.map_values(|batch: Vec<Vec<T>>| row_views(batch@)).flatten()
}

/// Joins the rows produced for each batch into one list of rows, keeping the
/// order of the batches and of the rows within each batch.
pub fn join_batch_rows<T>(batches: Vec<Vec<Vec<T>>>) -> (rows: Vec<Vec<T>>)
    ensures
        row_views(rows@) == joined_rows(batches@),
{
    let ghost all = batches@;
    let ghost parts = all.map_values(|batch: Vec<Vec<T>>| row_views(batch@));
    let mut rows: Vec<Vec<T>> = Vec::new();
    proof {
        assert(parts.take(0) =~= Seq::<Seq<Seq<T>>>::empty());
        assert(row_views(rows@) =~= parts.take(0).flatten());
    }
    for batch in it: batches.into_iter()
        invariant
            it.seq() == all,
            parts == all.map_values(|batch: Vec<Vec<T>>| row_views(batch@)),
            row_views(rows@) == parts.take(it.index() as int).flatten(),
    {
        let ghost k = it.index() as int;
        let ghost before = rows@;
        let mut batch = batch;
        assert(batch == all[k]);
        let ghost added = batch@;
        rows.append(&mut batch);
        proof {
            assert(row_views(rows@) =~= row_views(before) + row_views(added));
            assert(parts.take(k + 1) =~= parts.take(k).push(parts[k]));
            parts.take(k).lemma_flatten_push(parts[k]);
        }
    }
    proof {
        assert(parts.take(all.len() as int) =~= parts);
    }
    rows
}

/// The first `k` pieces, each as long as its planned bound, join into a
/// sequence as long as the first `k` bounds cover, whose element `i` is
/// element `i % size` of piece `i / size`.
proof fn lemma_join_prefix_positions<A>(parts: Seq<Seq<A>>, len: int, size: int, k: int)
    requires
        size > 0,
        len >= 0,
        parts.len() == chunk_count(len, size),
        forall|j: int|
            0 <= j < parts.len() ==> (#[trigger] parts[j]).len() == chunk_end(len, size, j) - j
                * size,
        0 <= k <= parts.len(),
    ensures
        parts.take(k).flatten().len() == if k == 0 {
            0
        } else {
            chunk_end(len, size, k - 1)
        },
        forall|i: int|
            0 <= i < parts.take(k).flatten().len() ==> #[trigger] parts.take(k).flatten()[i]
                == parts[i / size][i % size],
    decreases k,
{
    if k == 0 {
        assert(parts.take(0) =~= Seq::<Seq<A>>::empty());
    } else {
        lemma_join_prefix_positions(parts, len, size, k - 1);
        lemma_chunk_shape(len, size, k - 1);
        let shorter = parts.take(k - 1);
        assert(parts.take(k) =~= shorter.push(parts[k - 1]));
        shorter.lemma_flatten_push(parts[k - 1]);
        if k >= 2 {
            lemma_chunk_shape(len, size, k - 2);
            assert((k - 2) * size + size == (k - 1) * size) by (nonlinear_arith);
        } else {
            assert((k - 1) * size == 0) by (nonlinear_arith)
                requires
                    k == 1,
            ;
        }
        let joined = parts.take(k).flatten();
        assert(shorter.flatten().len() == (k - 1) * size);
        assert forall|i: int| 0 <= i < joined.len() implies #[trigger] joined[i] == parts[i
            / size][i % size] by {
            if i >= (k - 1) * size {
                lemma_fundamental_div_mod_converse(i, size, k - 1, i - (k - 1) * size);
                assert(joined[i] == parts[k - 1][i - (k - 1) * size]);
            } else {
                assert(joined[i] == shorter.flatten()[i]);
            }
        }
    }
}

/// Input `i` sits at offset `i % size` of batch `i / size`.
proof fn lemma_position_in_batch(len: int, size: int, i: int)
    requires
        size > 0,
        0 <= i < len,
    ensures
        0 <= i / size < chunk_count(len, size),
        0 <= i % size < size,
        chunk_bounds(len, size)[i / size].0 + i % size == i,
{
    let q = i / size;
    let r = i % size;
    assert(i == q * size + r && 0 <= r < size && 0 <= q) by (nonlinear_arith)
        requires
            i >= 0,
            size > 0,
            q == i / size,
            r == i % size,
    ;
    let k = chunk_count(len, size) as int;
    if q >= k {
        lemma_chunk_shape(len, size, k - 1);
        lemma_mul_inequality(k, q, size);
        assert(k * size == (k - 1) * size + size) by (nonlinear_arith);
    }
    assert(chunk_bounds(len, size)[q].0 == q * size);
}

/// When every planned batch of `len` inputs yields one piece per input, the
/// pieces joined in order number exactly `len`, and the piece at position
/// `i` is the one that batch `i / size`, which starts at input
/// `i - i % size`, yielded for its input `i % size`: that is, for input `i`.
pub proof fn lemma_joined_batches_follow_inputs<A>(parts: Seq<Seq<A>>, len: int, size: int)
    requires
        size > 0,
        len >= 0,
        parts.len() == chunk_bounds(len, size).len(),
        forall|j: int|
            0 <= j < parts.len() ==> (#[trigger] parts[j]).len() == chunk_bounds(len, size)[j].1
                - chunk_bounds(len, size)[j].0,
    ensures
        parts.flatten().len() == len,
        forall|i: int|
            0 <= i < len ==> #[trigger] chunk_bounds(len, size)[i / size].0 + i % size == i,
        forall|i: int|
            0 <= i < len ==> #[trigger] parts.flatten()[i] == parts[i / size][i % size],
{
    let k = parts.len() as int;
    assert forall|j: int| 0 <= j < parts.len() implies (#[trigger] parts[j]).len() == chunk_end(
        len,
        size,
        j,
    ) - j * size by {
        assert(chunk_bounds(len, size)[j] == (j * size, chunk_end(len, size, j)));
    }
    lemma_join_prefix_positions(parts, len, size, k);
    assert(parts.take(k) =~= parts);
    if k > 0 {
        lemma_chunk_shape(len, size, k - 1);
    } else {
        assert(len == 0);
    }
    assert forall|i: int| 0 <= i < len implies #[trigger] chunk_bounds(len, size)[i / size].0 + i
        % size == i by {
        lemma_position_in_batch(len, size, i);
    }
    assert forall|i: int| 0 <= i < len implies #[trigger] parts.flatten()[i] == parts[i
        / size][i % size] by {
        assert(parts.take(k).flatten()[i] == parts[i / size][i % size]);
    }
}

/// The rows of a matrix's row-major data, cut at its row length, are the
/// matrix again.
pub proof fn lemma_matrix_rows_round_trip<T>(matrix: Seq<Seq<T>>, column_count: int)
    requires
        column_count > 0,
        forall|i: int| 0 <= i < matrix.len() ==> (#[trigger] matrix[i]).len() == column_count,
    ensures
        matrix.flatten().len() == matrix.len() * column_count,
        rows_of(matrix.flatten(), matrix.len() as int, column_count) == matrix,
{
    let r = matrix.len() as int;
    let len = r * column_count;
    lemma_mul_inequality(0, r, column_count);
    if r > 0 {
        assert((r - 1) * column_count < len) by (nonlinear_arith)
            requires
                len == r * column_count,
                column_count > 0,
        ;
    }
    lemma_chunk_count_exact(len, column_count, r);
    assert forall|j: int| 0 <= j < matrix.len() implies (#[trigger] matrix[j]).len()
        == chunk_bounds(len, column_count)[j].1 - chunk_bounds(len, column_count)[j].0 by {
        lemma_chunk_shape(len, column_count, j);
        if j == r - 1 {
            assert(j * column_count + column_count == len) by (nonlinear_arith)
                requires
                    j == r - 1,
                    len == r * column_count,
            ;
        }
    }
    lemma_joined_batches_follow_inputs(matrix, len, column_count);
    let data = matrix.flatten();
    let rows = rows_of(data, r, column_count);
    assert forall|i: int| 0 <= i < r implies #[trigger] rows[i] =~= matrix[i] by {
        lemma_chunk_shape(len, column_count, i);
        if i == r - 1 {
            assert(i * column_count + column_count == len) by (nonlinear_arith)
                requires
                    i == r - 1,
                    len == r * column_count,
            ;
        }
        assert forall|j: int| 0 <= j < column_count implies rows[i][j] == matrix[i][j] by {
            lemma_fundamental_div_mod_converse(i * column_count + j, column_count, i, j);
            assert(rows[i][j] == data[i * column_count + j]);
        }
    }
    assert(rows =~= matrix);
}

/// Encoding each batch of inputs with an encoder that maps every input to
/// its row on its own, and joining the batches, in order.
pub open spec fn batched_encoding<A, B>(inputs: Seq<A>, encode: spec_fn(A) -> B, size: int) -> Seq<B> {
    let bounds = chunk_bounds(inputs.len() as int, size);
    Seq::new(
        bounds.len(),
        |j: int| inputs.subrange(bounds[j].0, bounds[j].1).map_values(encode),
    ).flatten()
}

/// With an encoder that maps every input to its row on its own, embedding in
/// batches gives the encoding of each input, in input order, whatever the
/// batch size.
pub proof fn lemma_batched_encoding_is_pointwise<A, B>(
    inputs: Seq<A>,
    encode: spec_fn(A) -> B,
    size: int,
)
    requires
        size > 0,
    ensures
        batched_encoding(inputs, encode, size) == inputs.map_values(encode),
{
    let len = inputs.len() as int;
    let bounds = chunk_bounds(len, size);
    let parts = Seq::new(
        bounds.len(),
        |j: int| inputs.subrange(bounds[j].0, bounds[j].1).map_values(encode),
    );
    assert forall|j: int| 0 <= j < parts.len() implies (#[trigger] parts[j]).len() == bounds[j].1
        - bounds[j].0 by {
        lemma_chunk_shape(len, size, j);
    }
    lemma_joined_batches_follow_inputs(parts, len, size);
    let joined = parts.flatten();
    assert forall|i: int| 0 <= i < len implies #[trigger] joined[i] == encode(inputs[i]) by {
        lemma_position_in_batch(len, size, i);
        lemma_chunk_shape(len, size, i / size);
    }
    assert(joined =~= inputs.map_values(encode));
}

/// The batch size never changes the rows: any two batch sizes give the same
/// rows for the same inputs.
pub proof fn lemma_batch_size_does_not_change_rows<A, B>(
    inputs: Seq<A>,
    encode: spec_fn(A) -> B,
    size_a: int,
    size_b: int,
)
    requires
        size_a > 0,
        size_b > 0,
    ensures
        batched_encoding(inputs, encode, size_a) == batched_encoding(inputs, encode, size_b),
{
    lemma_batched_encoding_is_pointwise(inputs, encode, size_a);
    lemma_batched_encoding_is_pointwise(inputs, encode, size_b);
}

/// Joining no batches gives no rows.
pub proof fn lemma_joined_rows_empty<T>()
    ensures
        joined_rows(Seq::<Vec<Vec<T>>>::empty()) == Seq::<Seq<T>>::empty(),
{
    let parts = Seq::<Vec<Vec<T>>>::empty().map_values(|batch: Vec<Vec<T>>| row_views(batch@));
    assert(parts =~= Seq::<Seq<Seq<T>>>::empty());
    assert(parts.flatten() =~= Seq::<Seq<T>>::empty());
}

/// Joining one more batch appends all of that batch's rows, in order, after
/// the rows of the batches before it: no row is dropped, reordered or added.
pub proof fn lemma_joined_rows_push<T>(batches: Seq<Vec<Vec<T>>>, batch: Vec<Vec<T>>)
    ensures
        joined_rows(batches.push(batch)) == joined_rows(batches) + row_views(batch@),
        joined_rows(batches.push(batch)).len() == joined_rows(batches).len() + batch@.len(),
{
    let f = |b: Vec<Vec<T>>| row_views(b@);
    let parts = batches.map_values(f);
    assert(batches.push(batch).map_values(f) =~= parts.push(row_views(batch@)));
    parts.lemma_flatten_push(row_views(batch@));
}

/// A caller's nonzero batch size is used exactly as given, whatever the
/// number of documents; a zero one is refused.
pub proof fn lemma_explicit_batch_size_kept(document_count: int, size: usize)
    ensures
        size > 0 ==> resolved_batch_size(document_count, Some(size)) == Ok::<usize, EmbedError>(
            size,
        ),
        size == 0 ==> resolved_batch_size(document_count, Some(size)) == Err::<usize, EmbedError>(
            EmbedError::ZeroBatchSize,
        ),
{
}

/// Without a chosen batch size, any non-empty input gets a batch size: it
/// is never larger than `DEFAULT_BATCH_SIZE` nor than the number of
/// documents, and it is one of the two.
pub proof fn lemma_default_batch_size_never_fails(document_count: int)
    requires
        document_count > 0,
    ensures
        resolved_batch_size(document_count, None) is Ok,
        0 < resolved_batch_size(document_count, None)->Ok_0 <= DEFAULT_BATCH_SIZE,
        resolved_batch_size(document_count, None)->Ok_0 <= document_count,
        resolved_batch_size(document_count, None)->Ok_0 == document_count
            || resolved_batch_size(document_count, None)->Ok_0 == DEFAULT_BATCH_SIZE,
{
}

/// Without a chosen batch size and with no documents, the size is refused.
pub proof fn lemma_default_batch_size_needs_documents()
    ensures
        resolved_batch_size(0, None) == Err::<usize, EmbedError>(EmbedError::ZeroBatchSize),
{
}

/// Planning `input_count > 0` inputs without a chosen batch size always
/// succeeds, cutting the inputs into batches of `min(input_count, 32)` that
/// partition them.
pub proof fn lemma_default_plan_partitions(input_count: int)
    requires
        input_count > 0,
    ensures
        resolved_batch_size(input_count, None) is Ok,
        partitions(
            chunk_bounds(input_count, resolved_batch_size(input_count, None)->Ok_0 as int),
            input_count,
            resolved_batch_size(input_count, None)->Ok_0 as int,
        ),
        input_count >= DEFAULT_BATCH_SIZE ==> chunk_bounds(
            input_count,
            resolved_batch_size(input_count, None)->Ok_0 as int,
        ).len() == chunk_count(input_count, DEFAULT_BATCH_SIZE as int),
        input_count < DEFAULT_BATCH_SIZE ==> chunk_bounds(
            input_count,
            resolved_batch_size(input_count, None)->Ok_0 as int,
        ) == seq![(0int, input_count)],
{
    lemma_default_batch_size_never_fails(input_count);
    let size = resolved_batch_size(input_count, None)->Ok_0 as int;
    lemma_chunks_partition(input_count, size);
    if input_count < DEFAULT_BATCH_SIZE {
        assert(size == input_count);
        lemma_chunk_count_exact(input_count, size, 1);
        assert(chunk_bounds(input_count, size) =~= seq![(0int, input_count)]);
    }
}

/// When each planned batch of `input_count` inputs yields one row per input,
/// the joined rows number exactly `input_count`, and row `i` is the row that
/// batch `i / size` yielded for its input `i % size`, that is, for input `i`.
pub proof fn lemma_joined_rows_one_per_input<T>(
    batches: Seq<Vec<Vec<T>>>,
    input_count: int,
    size: int,
)
    requires
        size > 0,
        input_count >= 0,
        batches.len() == chunk_bounds(input_count, size).len(),
        forall|j: int|
            0 <= j < batches.len() ==> (#[trigger] batches[j])@.len() == chunk_bounds(
                input_count,
                size,
            )[j].1 - chunk_bounds(input_count, size)[j].0,
    ensures
        joined_rows(batches).len() == input_count,
        forall|i: int|
            0 <= i < input_count ==> #[trigger] joined_rows(batches)[i] == batches[i / size]@[i
                % size]@,
{
    let parts = batches.map_values(|batch: Vec<Vec<T>>| row_views(batch@));
    assert forall|j: int| 0 <= j < parts.len() implies (#[trigger] parts[j]).len() == chunk_bounds(
        input_count,
        size,
    )[j].1 - chunk_bounds(input_count, size)[j].0 by {
        assert(parts[j] == row_views(batches[j]@));
    }
    lemma_joined_batches_follow_inputs(parts, input_count, size);
    assert forall|i: int| 0 <= i < input_count implies #[trigger] joined_rows(batches)[i]
        == batches[i / size]@[i % size]@ by {
        lemma_position_in_batch(input_count, size, i);
        lemma_chunk_shape(input_count, size, i / size);
        assert(parts[i / size] == row_views(batches[i / size]@));
    }
}

} // verus!
