//! Reciprocal-rank fusion of keyword and semantic search results: gathering,
//! for every article either search returned, the ranks at which each search
//! returned it.
use std::collections::HashMap;

use vstd::prelude::*;

verus! {

broadcast use vstd::std_specs::hash::group_hash_axioms;

/// Standard RRF constant: an article at 1-based rank `r` contributes
/// `1 / (60 + r)` to its fused score.
pub const RRF_K: usize = 60;

/// Largest number of results asked of either search.
pub const MAX_OVERFETCH_LIMIT: usize = 1000;

/// How many results to ask of each search for `limit` fused results: twice
/// the limit, capped at 1000.
pub fn overfetch_limit(limit: usize) -> (n: usize)
    ensures
        n == (if 2 * limit < MAX_OVERFETCH_LIMIT {
            2 * limit
        } else {
            MAX_OVERFETCH_LIMIT as int
        }),
{
    if limit < MAX_OVERFETCH_LIMIT / 2 {
        limit * 2
    } else {
        MAX_OVERFETCH_LIMIT
    }
}

/// How many results to ask of each search for `limit` fused results, or
/// `None` when no result is wanted and neither search needs to run.
pub fn hybrid_overfetch(limit: usize) -> (r: Option<usize>)
    ensures
        limit == 0 ==> r is None,
        limit > 0 ==> r == Some(
            (if 2 * limit < MAX_OVERFETCH_LIMIT {
                2 * limit
            } else {
                MAX_OVERFETCH_LIMIT as int
            }) as usize,
        ),
{
    if limit == 0 {
        None
    } else {
        Some(overfetch_limit(limit))
    }
}

/// One article of the fused result, with the 1-based ranks at which the
/// keyword and the semantic search returned it, in increasing order.
#[derive(Debug, Clone)]
pub struct FusedHit {
    pub article_id: i64,
    pub keyword_ranks: Vec<usize>,
    pub semantic_ranks: Vec<usize>,
}

/// The 1-based positions at which `x` occurs in `s`, in increasing order.
pub open spec fn ranks_of(s: Seq<i64>, x: i64) -> Seq<usize>
    decreases s.len(),
{
    if s.len() == 0 {
        Seq::empty()
    } else if s.last() == x {
        ranks_of(s.drop_last(), x).push(s.len() as usize)
    } else {
        ranks_of(s.drop_last(), x)
    }
}

/// The articles of the fused result, each once.
pub open spec fn hit_ids(hits: Seq<FusedHit>) -> Seq<i64> {
    hits.map_values(|h: FusedHit| h.article_id)
}

/// `hits` gathers the results `kw` of the keyword search and `sem` of the
/// semantic search: every article either returned appears exactly once
/// (their order is left open, as the fused scores decide it), with the
/// ranks at which each search returned it.
pub open spec fn fused(kw: Seq<i64>, sem: Seq<i64>, hits: Seq<FusedHit>) -> bool {
    &&& hit_ids(hits).no_duplicates()
    &&& forall|x: i64| hit_ids(hits).contains(x) <==> (kw.contains(x) || sem.contains(x))
    &&& forall|k: int|
        0 <= k < hits.len() ==> (#[trigger] hits[k]).keyword_ranks@ == ranks_of(
            kw,
            hits[k].article_id,
        ) && hits[k].semantic_ranks@ == ranks_of(sem, hits[k].article_id)
}

proof fn lemma_ranks_of_absent(s: Seq<i64>, x: i64)
    requires
        !s.contains(x),
    ensures
        ranks_of(s, x) == Seq::<usize>::empty(),
    decreases s.len(),
{
    if s.len() > 0 {
        assert(!s.drop_last().contains(x)) by {
            if s.drop_last().contains(x) {
                let j = choose|j: int| 0 <= j < s.drop_last().len() && s.drop_last()[j] == x;
                assert(s[j] == x);
            }
        }
        lemma_ranks_of_absent(s.drop_last(), x);
    }
}

proof fn lemma_take_one_more(s: Seq<i64>, i: int)
    requires
        0 <= i < s.len(),
    ensures
        forall|x: i64| s.take(i + 1).contains(x) <==> (s.take(i).contains(x) || x == s[i]),
{
    assert forall|x: i64| s.take(i + 1).contains(x) <==> (s.take(i).contains(x) || x == s[i]) by {
        if s.take(i + 1).contains(x) {
            let k = choose|k: int| 0 <= k < i + 1 && #[trigger] s.take(i + 1)[k] == x;
            if k < i {
                assert(s.take(i)[k] == x);
            }
        }
        if s.take(i).contains(x) {
            let k = choose|k: int| 0 <= k < i && #[trigger] s.take(i)[k] == x;
            assert(s.take(i + 1)[k] == x);
        }
        if x == s[i] {
            assert(s.take(i + 1)[i] == x);
        }
    }
}

proof fn lemma_ranks_step(s: Seq<i64>, i: int, x: i64)
    requires
        0 <= i < s.len(),
    ensures
        ranks_of(s.take(i + 1), x) == (if x == s[i] {
            ranks_of(s.take(i), x).push((i + 1) as usize)
        } else {
            ranks_of(s.take(i), x)
        }),
{
    assert(s.take(i + 1).drop_last() =~= s.take(i));
}

/// Invariant while gathering the first `i` results of `src` into `hits`,
/// where the results before `src` are `done`.
spec fn gathering(
    done: Seq<i64>,
    src: Seq<i64>,
    i: int,
    in_kw: bool,
    hits: Seq<FusedHit>,
    pos: Map<i64, usize>,
) -> bool {
    &&& hit_ids(hits).no_duplicates()
    &&& forall|x: i64|
        #![trigger pos.contains_key(x)]
        pos.contains_key(x) <==> (done.contains(x) || src.take(i).contains(x))
    &&& forall|x: i64|
        #![trigger pos.contains_key(x)]
        pos.contains_key(x) ==> pos[x] < hits.len() && hits[pos[x] as int].article_id == x
    &&& forall|k: int| 0 <= k < hits.len() ==> pos.contains_key(#[trigger] hits[k].article_id)
}

/// Gather the results of both searches by article.
pub fn fuse_rankings(keyword: &[i64], semantic: &[i64]) -> (hits: Vec<FusedHit>)
    requires
        keyword@.len() < usize::MAX,
        semantic@.len() < usize::MAX,
    ensures
        fused(keyword@, semantic@, hits@),
{
    let mut hits: Vec<FusedHit> = Vec::new();
    let mut pos: HashMap<i64, usize> = HashMap::new();
    let mut i: usize = 0;
    while i < keyword.len()
        invariant
            i <= keyword@.len(),
            keyword@.len() < usize::MAX,
            gathering(Seq::empty(), keyword@, i as int, true, hits@, pos@),
            forall|k: int|
                0 <= k < hits@.len() ==> (#[trigger] hits@[k]).keyword_ranks@ == ranks_of(
                    keyword@.take(i as int),
                    hits@[k].article_id,
                ) && hits@[k].semantic_ranks@ == Seq::<usize>::empty(),
        decreases keyword@.len() - i,
    {
        let id = keyword[i];
        let rank = i + 1;
        assert(keyword@.take(i + 1).drop_last() =~= keyword@.take(i as int));
        match pos.get(&id) {
            Some(p) => {
                let p = *p;
                let ghost before = hits@;
                let mut kr = hits[p].keyword_ranks.clone();
                kr.push(rank);
                let h = FusedHit {
                    article_id: hits[p].article_id,
                    keyword_ranks: kr,
                    semantic_ranks: hits[p].semantic_ranks.clone(),
                };
                hits.set(p, h);
                assert(hit_ids(hits@) =~= hit_ids(before));
            },
            None => {
                proof {
                    lemma_ranks_of_absent(keyword@.take(i as int), id);
                }
                let mut ranks: Vec<usize> = Vec::new();
                ranks.push(rank);
                let ghost before = hits@;
                pos.insert(id, hits.len());
                hits.push(FusedHit { article_id: id, keyword_ranks: ranks, semantic_ranks: Vec::new() });
                assert(hit_ids(hits@) =~= hit_ids(before).push(id));
                assert(ranks@ =~= Seq::<usize>::empty().push(rank));
            },
        }
        proof {
            lemma_take_one_more(keyword@, i as int);
            assert forall|k: int| 0 <= k < hits@.len() implies (#[trigger] hits@[k]).keyword_ranks@
                == ranks_of(keyword@.take(i + 1), hits@[k].article_id) by {
                lemma_ranks_step(keyword@, i as int, hits@[k].article_id);
                if hits@[k].article_id == id {
                    assert(hit_ids(hits@)[k] == id);
                    assert(hit_ids(hits@)[pos@[id] as int] == id);
                }
            }
        }
        i += 1;
    }
    assert(keyword@.take(keyword@.len() as int) =~= keyword@);
    let mut j: usize = 0;
    while j < semantic.len()
        invariant
            j <= semantic@.len(),
            semantic@.len() < usize::MAX,
            gathering(keyword@, semantic@, j as int, false, hits@, pos@),
            forall|k: int|
                0 <= k < hits@.len() ==> (#[trigger] hits@[k]).keyword_ranks@ == ranks_of(
                    keyword@,
                    hits@[k].article_id,
                ) && hits@[k].semantic_ranks@ == ranks_of(
                    semantic@.take(j as int),
                    hits@[k].article_id,
                ),
        decreases semantic@.len() - j,
    {
        let id = semantic[j];
        let rank = j + 1;
        assert(semantic@.take(j + 1).drop_last() =~= semantic@.take(j as int));
        match pos.get(&id) {
            Some(p) => {
                let p = *p;
                let ghost before = hits@;
                let mut sr = hits[p].semantic_ranks.clone();
                sr.push(rank);
                let h = FusedHit {
                    article_id: hits[p].article_id,
                    keyword_ranks: hits[p].keyword_ranks.clone(),
                    semantic_ranks: sr,
                };
                hits.set(p, h);
                assert(hit_ids(hits@) =~= hit_ids(before));
            },
            None => {
                proof {
                    lemma_ranks_of_absent(semantic@.take(j as int), id);
                    lemma_ranks_of_absent(keyword@, id);
                }
                let mut ranks: Vec<usize> = Vec::new();
                ranks.push(rank);
                let ghost before = hits@;
                pos.insert(id, hits.len());
                hits.push(FusedHit { article_id: id, keyword_ranks: Vec::new(), semantic_ranks: ranks });
                assert(hit_ids(hits@) =~= hit_ids(before).push(id));
                assert(ranks@ =~= Seq::<usize>::empty().push(rank));
            },
        }
        proof {
            lemma_take_one_more(semantic@, j as int);
            assert forall|k: int| 0 <= k < hits@.len() implies (#[trigger] hits@[k]).semantic_ranks@
                == ranks_of(semantic@.take(j + 1), hits@[k].article_id) by {
                lemma_ranks_step(semantic@, j as int, hits@[k].article_id);
                if hits@[k].article_id == id {
                    assert(hit_ids(hits@)[k] == id);
                    assert(hit_ids(hits@)[pos@[id] as int] == id);
                }
            }
        }
        j += 1;
    }
    assert(semantic@.take(semantic@.len() as int) =~= semantic@);
    assert forall|x: i64| hit_ids(hits@).contains(x) <==> (keyword@.contains(x) || semantic@.contains(x)) by {
        if hit_ids(hits@).contains(x) {
            let k = choose|k: int| 0 <= k < hit_ids(hits@).len() && hit_ids(hits@)[k] == x;
            assert(pos@.contains_key(hits@[k].article_id));
        }
        if keyword@.contains(x) || semantic@.contains(x) {
            assert(pos@.contains_key(x));
            assert(hit_ids(hits@)[pos@[x] as int] == x);
        }
    }
    hits
}

} // verus!
