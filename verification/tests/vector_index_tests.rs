use std::collections::{HashMap, HashSet};

use rss_ai::vector::{IndexState, VectorError};

fn emb(dims: usize) -> Vec<f32> {
    let mut v = vec![0.0f32; dims];
    v[0] = 1.0;
    v
}

#[test]
fn dimension_mismatch_rejected() {
    let mut index = IndexState::new(4);
    let err = index.add(1, [1.0f32, 2.0].len()).unwrap_err();
    assert!(matches!(
        err,
        VectorError::DimensionMismatch {
            expected: 4,
            actual: 2
        }
    ));
}

#[test]
fn duplicate_add_rejected() {
    let mut index = IndexState::new(4);
    index.add(1, emb(4).len()).unwrap();
    let err = index.add(1, emb(4).len()).unwrap_err();
    assert!(matches!(err, VectorError::DuplicateEntry(1)));
}

#[test]
fn remove_nonexistent_returns_error() {
    let mut index = IndexState::new(4);
    let err = index.remove(999).unwrap_err();
    assert!(matches!(err, VectorError::NotFound(999)));
}

#[test]
fn remove_already_tombstoned_returns_error() {
    let mut index = IndexState::new(4);
    index.add(1, 4).unwrap();
    index.remove(1).unwrap();
    let err = index.remove(1).unwrap_err();
    assert!(matches!(err, VectorError::NotFound(1)));
}

#[test]
fn contains_works() {
    let mut index = IndexState::new(4);
    assert!(!index.contains(1));
    index.add(1, 4).unwrap();
    assert!(index.contains(1));
    index.remove(1).unwrap();
    assert!(!index.contains(1));
}

#[test]
fn count_tracks_live_entries() {
    let mut index = IndexState::new(4);
    assert_eq!(index.count(), 0);
    for i in 1..=5 {
        index.add(i, emb(4).len()).unwrap();
    }
    assert_eq!(index.count(), 5);
    index.remove(2).unwrap();
    index.remove(4).unwrap();
    assert_eq!(index.count(), 3);
}

#[test]
fn batch_add_inserts_all() {
    let mut index = IndexState::new(4);
    let items: Vec<(i64, usize)> = (0..10).map(|i| (i as i64 + 1, 4)).collect();
    let slots = index.add_batch(&items).unwrap();
    assert_eq!(slots.len(), 10);
    assert_eq!(index.count(), 10);
    for (k, (id, _)) in items.iter().enumerate() {
        assert!(index.contains(*id));
        assert_eq!(slots[k].internal_id, k);
        assert_eq!(slots[k].replaced, None);
    }
}

#[test]
fn re_add_after_remove() {
    let mut index = IndexState::new(4);
    index.add(1, 4).unwrap();
    index.remove(1).unwrap();
    assert!(!index.contains(1));
    let outcome = index.add(1, 4).unwrap();
    assert_eq!(outcome.internal_id, 1);
    assert_eq!(outcome.replaced, Some(0));
    assert!(index.contains(1));
    assert_eq!(index.count(), 1);
}

#[test]
fn search_limit_zero_returns_empty() {
    let mut index = IndexState::new(4);
    index.add(1, 4).unwrap();
    assert!(index.plan_search(4, 0).unwrap().is_none());
}

#[test]
fn search_empty_index() {
    let index = IndexState::new(4);
    assert!(index.plan_search(4, 10).unwrap().is_none());
}

#[test]
fn dimension_mismatch_on_search() {
    let mut index = IndexState::new(4);
    index.add(1, 4).unwrap();
    let err = index.plan_search(2, 10).unwrap_err();
    assert!(matches!(err, VectorError::DimensionMismatch { .. }));
}

#[test]
fn batch_add_dimension_mismatch() {
    let mut index = IndexState::new(4);
    let items = vec![(1, 4), (2, 2)];
    let err = index.add_batch(&items).unwrap_err();
    assert!(matches!(
        err,
        VectorError::DimensionMismatch {
            expected: 4,
            actual: 2
        }
    ));
    assert_eq!(index.count(), 0);
}

#[test]
fn batch_add_duplicate_in_existing() {
    let mut index = IndexState::new(4);
    index.add(1, 4).unwrap();
    let items = vec![(2, 4), (1, 4)];
    let err = index.add_batch(&items).unwrap_err();
    assert!(matches!(err, VectorError::DuplicateEntry(1)));
    assert_eq!(index.count(), 1);
}

#[test]
fn batch_add_empty_is_noop() {
    let mut index = IndexState::new(4);
    let slots = index.add_batch(&[]).unwrap();
    assert!(slots.is_empty());
    assert_eq!(index.count(), 0);
}

#[test]
fn negative_article_ids_work() {
    let mut index = IndexState::new(4);
    index.add(-1, 4).unwrap();
    index.add(-100, 4).unwrap();
    assert!(index.contains(-1));
    assert!(index.contains(-100));
    assert_eq!(index.count(), 2);
}

#[test]
fn search_plan_overfetches_past_tombstones() {
    let mut index = IndexState::new(4);
    for i in 1..=20 {
        index.add(i, 4).unwrap();
    }
    index.remove(3).unwrap();
    index.remove(5).unwrap();
    let plan = index.plan_search(4, 3).unwrap().unwrap();
    assert_eq!(plan.overfetch, 5);
    assert_eq!(plan.ef, 32);
    let plan = index.plan_search(4, 100).unwrap().unwrap();
    assert_eq!(plan.overfetch, 20);
    let plan = index.plan_search(4, usize::MAX).unwrap().unwrap();
    assert_eq!(plan.overfetch, 20);
}

#[test]
fn resolve_neighbours_skips_tombstones_and_limits() {
    let mut index = IndexState::new(4);
    for i in 1..=5 {
        index.add(i * 10, 4).unwrap();
    }
    index.remove(20).unwrap();
    // Slots 0..5 belong to articles 10..50; slot 1 is tombstoned, 9 unknown.
    let hits = index.resolve_neighbours(&[1, 9, 0, 4, 2], 2);
    assert_eq!(hits, vec![(2, 10), (3, 50)]);
    let all = index.resolve_neighbours(&[3, 1, 2], 10);
    assert_eq!(all, vec![(0, 40), (2, 30)]);
}

#[test]
fn rebuild_forgets_tombstoned_slots() {
    let mut index = IndexState::new(4);
    index.add(1, 4).unwrap();
    index.add(2, 4).unwrap();
    index.remove(1).unwrap();
    let removed = index.rebuild();
    assert_eq!(removed, vec![0]);
    assert!(index.tombstones().is_empty());
    assert!(!index.internal_to_id().contains_key(&0));
    assert!(index.contains(2));
    // The removed article is forgotten with its slot: it stays out.
    assert!(!index.id_to_internal().contains_key(&1));
    assert!(!index.contains(1));
    assert_eq!(index.count(), 1);
}

#[test]
fn auto_save_counter() {
    let mut index = IndexState::new(4);
    assert!(!index.note_inserts(1, 3));
    assert!(!index.note_inserts(1, 3));
    assert!(index.note_inserts(1, 3));
    index.mark_saved();
    assert!(!index.note_inserts(5, 0));
}

#[test]
fn restore_checks_saved_state() {
    let mut ids = HashMap::new();
    ids.insert(10i64, 0usize);
    ids.insert(20i64, 1usize);
    let mut slots = HashMap::new();
    slots.insert(0usize, 10i64);
    slots.insert(1usize, 20i64);
    let mut tombs = HashSet::new();
    tombs.insert(1usize);

    let st = IndexState::restore(4, 4, 2, ids.clone(), slots.clone(), tombs.clone()).unwrap();
    assert_eq!(st.count(), 1);
    assert!(st.contains(10));
    assert!(!st.contains(20));

    let err = IndexState::restore(3, 4, 2, ids.clone(), slots.clone(), tombs.clone()).unwrap_err();
    assert!(matches!(
        err,
        VectorError::DimensionMismatch {
            expected: 3,
            actual: 4
        }
    ));

    let mut short = slots.clone();
    short.remove(&1);
    let err = IndexState::restore(4, 4, 2, ids.clone(), short, tombs.clone()).unwrap_err();
    assert!(matches!(err, VectorError::Persistence(_)));

    // A slot beyond the next one to hand out is inconsistent.
    let err = IndexState::restore(4, 4, 1, ids, slots, tombs).unwrap_err();
    assert!(matches!(err, VectorError::Persistence(_)));
}

#[test]
fn zero_dimensions_rejected() {
    match rss_ai::vector::IndexState::open_empty(0) {
        Err(rss_ai::vector::VectorError::DimensionMismatch { expected, actual }) => {
            assert_eq!(expected, 1);
            assert_eq!(actual, 0);
        }
        _ => panic!("expected DimensionMismatch"),
    }
    match rss_ai::vector::IndexState::open_empty(3) {
        Ok(st) => {
            assert_eq!(st.dimensions(), 3);
            assert_eq!(st.count(), 0);
        }
        Err(_) => panic!("expected an empty index"),
    }
}

fn reload(st: &IndexState, dims: usize) -> Result<IndexState, VectorError> {
    IndexState::restore(
        dims,
        st.dimensions(),
        st.next_internal_id(),
        st.id_to_internal().clone(),
        st.internal_to_id().clone(),
        st.tombstones().clone(),
    )
}

#[test]
fn persistence_roundtrip() {
    let mut index = IndexState::new(4);
    index.add(10, 4).unwrap();
    index.add(20, 4).unwrap();
    index.add(30, 4).unwrap();
    let reloaded = reload(&index, 4).unwrap();
    assert_eq!(reloaded.count(), 3);
    assert!(reloaded.contains(10));
    assert!(reloaded.contains(20));
    assert!(reloaded.contains(30));
    assert_eq!(reloaded.next_internal_id(), 3);
}

#[test]
fn persistence_excludes_tombstoned() {
    let mut index = IndexState::new(4);
    index.add(1, 4).unwrap();
    index.add(2, 4).unwrap();
    index.remove(1).unwrap();
    let reloaded = reload(&index, 4).unwrap();
    assert_eq!(reloaded.count(), 1);
    assert!(!reloaded.contains(1));
    assert!(reloaded.contains(2));
    assert!(reloaded.is_tombstoned(0));
}

#[test]
fn persistence_dimension_mismatch_on_reload() {
    let mut index = IndexState::new(4);
    index.add(1, 4).unwrap();
    match reload(&index, 3) {
        Err(VectorError::DimensionMismatch { expected, actual }) => {
            assert_eq!(expected, 3);
            assert_eq!(actual, 4);
        }
        _ => panic!("expected DimensionMismatch"),
    }
}

#[test]
fn auto_save_triggers() {
    let mut index = IndexState::new(4);
    index.add(1, 4).unwrap();
    assert!(!index.note_inserts(1, 3));
    index.add(2, 4).unwrap();
    assert!(!index.note_inserts(1, 3));
    index.add(3, 4).unwrap();
    assert!(index.note_inserts(1, 3));
    index.mark_saved();
    assert_eq!(index.inserts_since_save(), 0);
}

#[test]
fn rebuild_then_reload_keeps_live_articles() {
    let mut index = IndexState::new(4);
    index.add(1, 4).unwrap();
    index.add(2, 4).unwrap();
    index.remove(1).unwrap();
    let removed = index.rebuild();
    assert_eq!(removed, vec![0]);
    let reloaded = reload(&index, 4).unwrap();
    assert_eq!(reloaded.count(), 1);
    assert!(reloaded.contains(2));
    assert!(!reloaded.contains(1));
}

#[test]
fn re_add_after_rebuild_gets_fresh_slot() {
    let mut index = IndexState::new(4);
    index.add(1, 4).unwrap();
    index.remove(1).unwrap();
    index.rebuild();
    let out = index.add(1, 4).unwrap();
    assert_eq!(out.internal_id, 1);
    assert_eq!(out.replaced, None);
    assert_eq!(index.count(), 1);
}

#[test]
fn inconsistent_saved_state_is_refused() {
    // Article 1 owns slot 0, but the next slot to hand out is also 0.
    let mut ids = HashMap::new();
    ids.insert(1i64, 0usize);
    let mut slots = HashMap::new();
    slots.insert(0usize, 1i64);
    let r = IndexState::restore(4, 4, 0, ids, slots, HashSet::new());
    assert!(matches!(r, Err(VectorError::Persistence(_))));
}
