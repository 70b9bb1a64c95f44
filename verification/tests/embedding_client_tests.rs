use rss_ai::embeddings::{
    attempt_verdict, batch_answer_usable, batch_plan, chunk_ranges, count_items,
    effective_batch_size, embeddings_endpoint, retry_backoff_ms, validate_dimensions,
    AttemptOutcome, AttemptVerdict, BatchPlan, EmbeddingError, ItemOutcome,
};

#[test]
fn endpoint_drops_trailing_slashes() {
    assert_eq!(embeddings_endpoint("http://localhost:11434"), "http://localhost:11434/v1/embeddings");
    assert_eq!(embeddings_endpoint("http://localhost:11434//"), "http://localhost:11434/v1/embeddings");
    assert_eq!(embeddings_endpoint(""), "/v1/embeddings");
}

#[test]
fn backoff_doubles_from_half_a_second() {
    assert_eq!(retry_backoff_ms(1), 500);
    assert_eq!(retry_backoff_ms(2), 1000);
    assert_eq!(retry_backoff_ms(3), 2000);
}

#[test]
fn retry_policy() {
    let ok = AttemptOutcome::Answered { status: 200 };
    assert!(attempt_verdict(0, &ok) == AttemptVerdict::Accept);
    let busy = AttemptOutcome::Answered { status: 503 };
    assert!(attempt_verdict(0, &busy) == AttemptVerdict::RetryAfter { ms: 500 });
    assert!(attempt_verdict(2, &busy) == AttemptVerdict::RetryAfter { ms: 2000 });
    assert!(attempt_verdict(3, &busy) == AttemptVerdict::Stop);
    let limited = AttemptOutcome::Answered { status: 429 };
    assert!(attempt_verdict(1, &limited) == AttemptVerdict::RetryAfter { ms: 1000 });
    let timeout = AttemptOutcome::TransportFailed { retryable: true };
    assert!(attempt_verdict(0, &timeout) == AttemptVerdict::RetryAfter { ms: 500 });
    let broken = AttemptOutcome::TransportFailed { retryable: false };
    assert!(attempt_verdict(0, &broken) == AttemptVerdict::Stop);
}

#[test]
fn server_error_returns_error() {
    let bad_request = AttemptOutcome::Answered { status: 400 };
    assert!(attempt_verdict(0, &bad_request) == AttemptVerdict::Stop);
}

#[test]
fn wrong_dimensions_rejected() {
    match validate_dimensions(5, 3) {
        Err(EmbeddingError::DimensionMismatch { expected, actual }) => {
            assert_eq!(expected, 5);
            assert_eq!(actual, 3);
        }
        _ => panic!("expected DimensionMismatch"),
    }
    assert!(validate_dimensions(3, 3).is_ok());
}

#[test]
fn batches_and_fallbacks() {
    assert!(batch_plan(0) == BatchPlan::Nothing);
    assert!(batch_plan(1) == BatchPlan::Single);
    assert!(batch_plan(3) == BatchPlan::Batch);
    assert!(batch_answer_usable(true, 3, 3));
    assert!(!batch_answer_usable(true, 2, 3));
    assert!(!batch_answer_usable(false, 3, 3));
}

#[test]
fn pipeline_chunks() {
    assert_eq!(effective_batch_size(None), 10);
    assert_eq!(effective_batch_size(Some(4)), 4);
    assert_eq!(chunk_ranges(10, 4), vec![(0, 4), (4, 8), (8, 10)]);
    assert_eq!(chunk_ranges(8, 4), vec![(0, 4), (4, 8)]);
    assert_eq!(chunk_ranges(0, 4), Vec::<(usize, usize)>::new());
    assert_eq!(chunk_ranges(1, 10), vec![(0, 1)]);
}

#[test]
fn pipeline_counts() {
    let outcomes = vec![
        ItemOutcome::Stored,
        ItemOutcome::EmbedFailed,
        ItemOutcome::Stored,
        ItemOutcome::MarkFailed,
    ];
    assert_eq!(count_items(&outcomes), (2, 2));
    assert_eq!(count_items(&[]), (0, 0));
}
