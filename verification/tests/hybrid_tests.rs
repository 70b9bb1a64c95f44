use rss_ai::hybrid::{fuse_rankings, hybrid_overfetch, overfetch_limit};

#[test]
fn overfetch_is_twice_the_limit_capped() {
    assert_eq!(overfetch_limit(10), 20);
    assert_eq!(overfetch_limit(499), 998);
    assert_eq!(overfetch_limit(500), 1000);
    assert_eq!(overfetch_limit(5000), 1000);
}

#[test]
fn hybrid_overfetch_skips_zero_limit() {
    assert_eq!(hybrid_overfetch(0), None);
    assert_eq!(hybrid_overfetch(3), Some(6));
    assert_eq!(hybrid_overfetch(800), Some(1000));
}

#[test]
fn fused_ranks_of_both_searches() {
    let hits = fuse_rankings(&[5, 7], &[7, 9]);
    let mut by_id: Vec<(i64, Vec<usize>, Vec<usize>)> = hits
        .iter()
        .map(|h| (h.article_id, h.keyword_ranks.clone(), h.semantic_ranks.clone()))
        .collect();
    by_id.sort();
    assert_eq!(
        by_id,
        vec![
            (5, vec![1], vec![]),
            (7, vec![2], vec![1]),
            (9, vec![], vec![2]),
        ]
    );
}
