use std::collections::HashSet;

use rss_ai::graph::LinkGraphWalk;
use rss_ai::models::LinkGraphNode;

fn walk(links: &[(i64, i64)], start: i64, depth: u32) -> Vec<LinkGraphNode> {
    let mut w = LinkGraphWalk::new(start, depth);
    while let Some(id) = w.next_article() {
        let touching: Vec<(i64, i64)> =
            links.iter().copied().filter(|(s, t)| *s == id || *t == id).collect();
        w.visit(&touching);
    }
    w.finish()
}

fn ids(g: &[LinkGraphNode]) -> HashSet<i64> {
    g.iter().map(|n| n.article_id).collect()
}

#[test]
fn link_graph_bfs() {
    let links = [(1, 2), (2, 3), (3, 4)];
    let g = walk(&links, 1, 1);
    let visited = ids(&g);
    assert!(visited.contains(&1));
    assert!(visited.contains(&2));
    assert!(!visited.contains(&3));
    let g = walk(&links, 1, 3);
    assert_eq!(ids(&g).len(), 4);
}

#[test]
fn link_graph_depth_zero() {
    let g = walk(&[(1, 2)], 1, 0);
    assert_eq!(g.len(), 1);
    assert_eq!(g[0].article_id, 1);
    assert_eq!(g[0].linked_article_ids, vec![2]);
}

#[test]
fn link_graph_cycle() {
    let g = walk(&[(1, 2), (2, 3), (3, 1)], 1, 10);
    assert_eq!(ids(&g).len(), 3);
    assert_eq!(g.len(), 3);
}

#[test]
fn link_graph_isolated_node() {
    let g = walk(&[], 7, 5);
    assert_eq!(g.len(), 1);
    assert_eq!(g[0].article_id, 7);
    assert!(g[0].linked_article_ids.is_empty());
}

#[test]
fn link_graph_depth_exceeds_actual() {
    let g = walk(&[(1, 2)], 1, 100);
    assert_eq!(ids(&g).len(), 2);
}

#[test]
fn link_graph_lists_both_directions_in_order() {
    let g = walk(&[(2, 1), (1, 3), (1, 1)], 1, 1);
    assert_eq!(g[0].linked_article_ids, vec![2, 3, 1]);
    let order: Vec<i64> = g.iter().map(|n| n.article_id).collect();
    assert_eq!(order, vec![1, 2, 3]);
}

#[test]
fn link_graph_nodes_come_in_hop_order() {
    let links = [(1, 2), (1, 3), (2, 4), (3, 4), (4, 5)];
    let g = walk(&links, 1, 2);
    let order: Vec<i64> = g.iter().map(|n| n.article_id).collect();
    assert_eq!(order, vec![1, 2, 3, 4]);
    // Article 4, at the depth limit, still lists all its links.
    assert_eq!(g[3].linked_article_ids, vec![2, 3, 5]);
}

#[test]
fn link_graph_reaches_by_shortest_path() {
    // 5 is three hops away along 1-2-3-5, but one hop along 1-5.
    let links = [(1, 2), (2, 3), (3, 5), (5, 1)];
    let g = walk(&links, 1, 1);
    assert_eq!(ids(&g), [1, 2, 5].into_iter().collect());
}
