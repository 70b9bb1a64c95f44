//! Breadth-first walk of the article link graph. The walk asks for the
//! links of one article at a time; the caller looks them up and hands them
//! back, so the walk itself holds no storage.
use std::collections::{HashSet, VecDeque};

use vstd::prelude::*;

use crate::models::LinkGraphNode;

verus! {

broadcast use vstd::std_specs::hash::group_hash_axioms;

/// Most articles a walk visits, so that a densely linked graph cannot
/// exhaust memory.
pub const MAX_GRAPH_NODES: usize = 10_000;

/// The article at the other end of a link `(source, target)` from `cur`.
pub open spec fn neighbor(l: (i64, i64), cur: i64) -> i64 {
    if l.0 == cur {
        l.1
    } else {
        l.0
    }
}

/// The articles at the other ends of the links, in order.
pub open spec fn neighbors(links: Seq<(i64, i64)>, cur: i64) -> Seq<i64> {
    links.map_values(|l: (i64, i64)| neighbor(l, cur))
}

/// The articles of a queue of `(article, depth)` entries.
pub open spec fn queued_ids(q: Seq<(i64, u32)>) -> Seq<i64> {
    q.map_values(|e: (i64, u32)| e.0)
}

/// The queue after visiting `cur` (found at depth `d`) with its links: each
/// article at the other end that was never queued joins it one level
/// deeper, while the depth limit and the node budget allow.
pub open spec fn enqueued(
    q: Seq<(i64, u32)>,
    links: Seq<(i64, i64)>,
    cur: i64,
    d: u32,
    depth: u32,
) -> Seq<(i64, u32)>
    decreases links.len(),
{
    if links.len() == 0 {
        q
    } else {
        let q1 = enqueued(q, links.drop_last(), cur, d, depth);
        let nb = neighbor(links.last(), cur);
        if d < depth && q1.len() < MAX_GRAPH_NODES && !queued_ids(q1).contains(nb) {
            q1.push((nb, (d + 1) as u32))
        } else {
            q1
        }
    }
}

/// No article occurs twice.
pub open spec fn distinct(s: Seq<i64>) -> bool {
    forall|i: int, j: int| 0 <= i < j < s.len() ==> s[i] != s[j]
}

/// Hop counts never decrease along the queue.
pub open spec fn depths_sorted(h: Seq<(i64, u32)>) -> bool {
    forall|i: int, j: int| 0 <= i <= j < h.len() ==> h[i].1 <= h[j].1
}

/// Article `v` was queued at most `bound` hops from the start.
pub open spec fn queued_within(h: Seq<(i64, u32)>, v: i64, bound: int) -> bool {
    exists|i: int| 0 <= i < h.len() && h[i].0 == v && h[i].1 <= bound
}

/// The `i`-th queued article was found, one hop further, in the links of
/// an article visited before it.
pub open spec fn has_parent(h: Seq<(i64, u32)>, g: Seq<LinkGraphNode>, i: int) -> bool {
    exists|j: int|
        0 <= j < i && j < g.len() && h[j].1 + 1 == h[i].1
            && #[trigger] g[j].linked_article_ids@.contains(h[i].0)
}

/// When the `j`-th visited article is less than `depth` hops away, every
/// article at the other end of its links was queued at most one hop
/// further.
pub open spec fn closed_at(h: Seq<(i64, u32)>, g: Seq<LinkGraphNode>, j: int, depth: u32) -> bool {
    h[j].1 < depth ==> forall|m: int|
        0 <= m < g[j].linked_article_ids@.len() ==> queued_within(
            h,
            #[trigger] g[j].linked_article_ids@[m],
            h[j].1 + 1,
        )
}

/// Article `v` is at most `n` hops from `start` along the links the nodes
/// of `g` list.
pub open spec fn linked_within(g: Seq<LinkGraphNode>, start: i64, v: i64, n: nat) -> bool
    decreases n,
{
    v == start || (n > 0 && exists|j: int|
        0 <= j < g.len() && linked_within(g, start, g[j].article_id, (n - 1) as nat)
            && #[trigger] g[j].linked_article_ids@.contains(v))
}

/// A walk in progress: the articles seen (each queued once, in order, with
/// its hop count), the queue of those still to visit, and the nodes built
/// so far.
pub struct LinkGraphWalk {
    start: i64,
    depth: u32,
    seen_ids: HashSet<i64>,
    queue: VecDeque<(i64, u32)>,
    graph: Vec<LinkGraphNode>,
    history: Ghost<Seq<(i64, u32)>>,
}

impl LinkGraphWalk {
    /// The articles queued so far, in order, with their hop counts.
    pub closed spec fn seen(&self) -> Seq<(i64, u32)> {
        self.history@
    }

    /// How many queued articles have been visited.
    pub closed spec fn visited(&self) -> nat {
        self.graph@.len()
    }

    /// The nodes built so far.
    pub closed spec fn nodes(&self) -> Seq<LinkGraphNode> {
        self.graph@
    }

    /// The article the walk starts from.
    pub closed spec fn origin(&self) -> i64 {
        self.start
    }

    /// The number of hops the walk may go.
    pub closed spec fn max_depth(&self) -> u32 {
        self.depth
    }

    /// The walk's invariant: the start is queued first at hop zero; no
    /// article is queued twice; the queue stays within the node budget and
    /// the depth limit; the queue holds the seen articles not yet visited,
    /// and the set of seen articles is those queued; the nodes built are
    /// those of the visited ones. Hop counts never decrease, and none
    /// exceeds the next article's by more than one. Every article but the
    /// start was found in the links of an earlier one, one hop closer; and
    /// while the budget is not spent, every link of a visited article below
    /// the depth limit leads to a queued article at most one hop further.
    pub closed spec fn wf(&self) -> bool {
        let h = self.history@;
        let g = self.graph@;
        &&& h.len() >= 1
        &&& h[0] == (self.start, 0u32)
        &&& distinct(queued_ids(h))
        &&& h.len() <= MAX_GRAPH_NODES
        &&& forall|i: int| 0 <= i < h.len() ==> h[i].1 <= self.depth
        &&& g.len() <= h.len()
        &&& self.queue@ == h.skip(g.len() as int)
        &&& self.seen_ids@.finite()
        &&& self.seen_ids@ == queued_ids(h).to_set()
        &&& self.seen_ids@.len() == h.len()
        &&& forall|i: int| 0 <= i < g.len() ==> g[i].article_id == h[i].0
        &&& depths_sorted(h)
        &&& g.len() < h.len() ==> forall|i: int| 0 <= i < h.len() ==> #[trigger] h[i].1 <= h[g.len() as int].1 + 1
        &&& forall|i: int| 0 < i < h.len() ==> #[trigger] has_parent(h, g, i)
        &&& h.len() < MAX_GRAPH_NODES ==> forall|j: int|
            0 <= j < g.len() ==> #[trigger] closed_at(h, g, j, self.depth)
    }

    /// Whether another article is to be visited: one is waiting in the
    /// queue and the node budget is not spent.
    pub open spec fn can_continue(&self) -> bool {
        self.visited() < self.seen().len() && self.nodes().len() < MAX_GRAPH_NODES
    }

    /// A walk from `start` going at most `depth` hops.
    pub fn new(start: i64, depth: u32) -> (w: Self)
        ensures
            w.wf(),
            w.seen() == seq![(start, 0u32)],
            w.visited() == 0,
            w.nodes().len() == 0,
            w.origin() == start,
            w.max_depth() == depth,
    {
        let mut seen_ids: HashSet<i64> = HashSet::new();
        seen_ids.insert(start);
        let mut queue: VecDeque<(i64, u32)> = VecDeque::new();
        queue.push_back((start, 0));
        let ghost hist = seq![(start, 0u32)];
        let w = LinkGraphWalk {
            start,
            depth,
            seen_ids,
            queue,
            graph: Vec::new(),
            history: Ghost(hist),
        };
        assert(queued_ids(w.history@) =~= seq![start]);
        assert(w.seen_ids@ =~= queued_ids(w.history@).to_set()) by {
            assert(queued_ids(w.history@)[0] == start);
        }
        assert(w.queue@ =~= w.history@.skip(0));
        w
    }

    /// The next article whose links are needed, if the walk goes on.
    pub fn next_article(&self) -> (r: Option<i64>)
        requires
            self.wf(),
        ensures
            self.can_continue() ==> r == Some(self.seen()[self.visited() as int].0),
            !self.can_continue() ==> r is None,
    {
        if self.graph.len() < MAX_GRAPH_NODES && self.queue.len() > 0 {
            Some(self.queue[0].0)
        } else {
            None
        }
    }

    /// Visit the next article with the links (`(source, target)` pairs) that
    /// touch it: its node lists the other ends in order, and the articles
    /// not seen before are queued one hop further.
    pub fn visit(&mut self, links: &[(i64, i64)])
        requires
            old(self).wf(),
            old(self).can_continue(),
        ensures
            final(self).wf(),
            final(self).origin() == old(self).origin(),
            final(self).max_depth() == old(self).max_depth(),
            final(self).visited() == old(self).visited() + 1,
            final(self).seen() == enqueued(
                old(self).seen(),
                links@,
                old(self).seen()[old(self).visited() as int].0,
                old(self).seen()[old(self).visited() as int].1,
                old(self).max_depth(),
            ),
            final(self).nodes().len() == old(self).nodes().len() + 1,
            forall|i: int|
                0 <= i < old(self).nodes().len() ==> final(self).nodes()[i] == old(
                    self,
                ).nodes()[i],
            final(self).nodes().last().article_id == old(self).seen()[old(
                self,
            ).visited() as int].0,
            final(self).nodes().last().linked_article_ids@ == neighbors(
                links@,
                old(self).seen()[old(self).visited() as int].0,
            ),
    {
        let ghost h0 = self.history@;
        let ghost g0 = self.graph@;
        let ghost head = self.graph@.len() as int;
        let front = self.queue.pop_front();
        assert(h0.skip(head)[0] == h0[head]);
        let (cur, d) = front.unwrap();
        assert(self.queue@ =~= h0.skip(head + 1));
        let mut linked: Vec<i64> = Vec::new();
        let mut k: usize = 0;
        while k < links.len()
            invariant
                k <= links@.len(),
                self.start == old(self).start,
                self.depth == old(self).depth,
                self.graph@ == g0,
                head == g0.len(),
                head < h0.len(),
                (cur, d) == h0[head],
                h0[0] == (self.start, 0u32),
                h0.len() <= MAX_GRAPH_NODES,
                self.history@ == enqueued(h0, links@.take(k as int), cur, d, self.depth),
                self.history@.len() >= h0.len(),
                self.history@.subrange(0, h0.len() as int) == h0,
                self.queue@ == self.history@.skip(head + 1),
                self.seen_ids@.finite(),
                self.seen_ids@ == queued_ids(self.history@).to_set(),
                self.seen_ids@.len() == self.history@.len(),
                distinct(queued_ids(self.history@)),
                self.history@.len() <= MAX_GRAPH_NODES,
                forall|i: int|
                    0 <= i < self.history@.len() ==> self.history@[i].1 <= self.depth,
                depths_sorted(self.history@),
                forall|i: int| 0 <= i < self.history@.len() ==> self.history@[i].1 <= d + 1,
                forall|i: int|
                    h0.len() <= i < self.history@.len() ==> self.history@[i].1 == d + 1
                        && linked@.contains(self.history@[i].0),
                linked@ == neighbors(links@.take(k as int), cur),
                self.history@.len() < MAX_GRAPH_NODES && d < self.depth ==> forall|m: int|
                    0 <= m < linked@.len() ==> queued_within(
                        self.history@,
                        #[trigger] linked@[m],
                        d + 1,
                    ),
            decreases links@.len() - k,
        {
            let (s, t) = links[k];
            let nb = if s == cur {
                t
            } else {
                s
            };
            let ghost h1 = self.history@;
            let ghost l1 = linked@;
            linked.push(nb);
            assert(links@.take(k + 1).drop_last() =~= links@.take(k as int));
            assert(linked@ =~= neighbors(links@.take(k + 1), cur));
            if d < self.depth && self.seen_ids.len() < MAX_GRAPH_NODES && self.seen_ids.insert(nb) {
                self.queue.push_back((nb, d + 1));
                let ghost pushed = self.history@.push((nb, (d + 1) as u32));
                self.history = Ghost(pushed);
                proof {
                    let h2 = self.history@;
                    assert(queued_ids(h2) =~= queued_ids(h1).push(nb));
                    queued_ids(h1).lemma_push_to_set_commute(nb);
                    assert(self.seen_ids@ =~= queued_ids(h2).to_set());
                    assert(h2.subrange(0, h0.len() as int) =~= h1.subrange(0, h0.len() as int));
                    assert(self.queue@ =~= h2.skip(head + 1));
                    assert forall|m: int| 0 <= m < linked@.len() implies (h2.len() < MAX_GRAPH_NODES
                        && d < self.depth ==> queued_within(h2, #[trigger] linked@[m], d + 1)) by {
                        if m < l1.len() && h2.len() < MAX_GRAPH_NODES {
                            assert(linked@[m] == l1[m]);
                            let i = choose|i: int|
                                0 <= i < h1.len() && h1[i].0 == l1[m] && h1[i].1 <= d + 1;
                            assert(h2[i] == h1[i]);
                        } else if m == l1.len() {
                            assert(h2[h1.len() as int] == (nb, (d + 1) as u32));
                        }
                    }
                    assert forall|i: int| h0.len() <= i < h2.len() implies h2[i].1 == d + 1
                        && linked@.contains(h2[i].0) by {
                        if i < h1.len() {
                            assert(h2[i] == h1[i]);
                            let p = choose|p: int| 0 <= p < l1.len() && l1[p] == h1[i].0;
                            assert(linked@[p] == l1[p]);
                        } else {
                            assert(linked@[l1.len() as int] == nb);
                        }
                    }
                }
            } else {
                proof {
                    let h1 = self.history@;
                    assert forall|m: int| 0 <= m < linked@.len() implies (h1.len() < MAX_GRAPH_NODES
                        && d < self.depth ==> queued_within(h1, #[trigger] linked@[m], d + 1)) by {
                        if m < l1.len() {
                            assert(linked@[m] == l1[m]);
                        } else if h1.len() < MAX_GRAPH_NODES && d < self.depth {
                            assert(queued_ids(h1).to_set().contains(nb));
                            let i = choose|i: int| 0 <= i < queued_ids(h1).len() && queued_ids(h1)[i] == nb;
                            assert(h1[i].0 == nb);
                        }
                    }
                    assert forall|i: int| h0.len() <= i < h1.len() implies h1[i].1 == d + 1
                        && linked@.contains(h1[i].0) by {
                        let p = choose|p: int| 0 <= p < l1.len() && l1[p] == h1[i].0;
                        assert(linked@[p] == l1[p]);
                    }
                }
            }
            k += 1;
        }
        assert(links@.take(links@.len() as int) =~= links@);
        self.graph.push(LinkGraphNode { article_id: cur, linked_article_ids: linked });
        proof {
            let h = self.history@;
            let g = self.graph@;
            assert forall|i: int| 0 <= i < h0.len() implies h[i] == h0[i] by {
                assert(h[i] == h.subrange(0, h0.len() as int)[i]);
            }
            assert forall|i: int| 0 <= i < g.len() implies g[i].article_id == h[i].0 by {
                if i < head {
                    assert(g[i] == g0[i]);
                }
            }
            assert forall|i: int| 0 < i < h.len() implies #[trigger] has_parent(h, g, i) by {
                if i < h0.len() {
                    assert(has_parent(h0, g0, i));
                    let j = choose|j: int|
                        0 <= j < i && j < g0.len() && h0[j].1 + 1 == h0[i].1
                            && #[trigger] g0[j].linked_article_ids@.contains(h0[i].0);
                    assert(g[j] == g0[j]);
                    assert(g[j].linked_article_ids@.contains(h[i].0));
                } else {
                    assert(g[head].linked_article_ids@.contains(h[i].0));
                }
            }
            if h.len() < MAX_GRAPH_NODES {
                assert forall|j: int| 0 <= j < g.len() implies #[trigger] closed_at(h, g, j, self.depth) by {
                    if j < head {
                        assert(closed_at(h0, g0, j, self.depth));
                        assert(g[j] == g0[j]);
                        if h[j].1 < self.depth {
                            assert forall|m: int| 0 <= m < g[j].linked_article_ids@.len() implies queued_within(
                                h,
                                #[trigger] g[j].linked_article_ids@[m],
                                h[j].1 + 1,
                            ) by {
                                assert(queued_within(h0, g0[j].linked_article_ids@[m], h0[j].1 + 1));
                                let i = choose|i: int|
                                    0 <= i < h0.len() && h0[i].0 == g0[j].linked_article_ids@[m]
                                        && h0[i].1 <= h0[j].1 + 1;
                                assert(h[i] == h0[i]);
                            }
                        }
                    }
                }
            }
            if g.len() < h.len() {
                assert(h[head].1 <= h[g.len() as int].1);
            }
        }
    }

    /// The graph of a finished walk: one node per visited article, the
    /// start first, no article twice, within the node budget, each at most
    /// the depth limit away, in order of hop count. Unless the node budget
    /// was reached, the articles in the graph are exactly those within the
    /// depth limit of the start along the links the nodes list, and each
    /// is placed at its least number of hops.
    pub fn finish(self) -> (g: Vec<LinkGraphNode>)
        requires
            self.wf(),
            !self.can_continue(),
        ensures
            g@ == self.nodes(),
            g@.len() >= 1,
            g@[0].article_id == self.origin(),
            g@.len() <= MAX_GRAPH_NODES,
            distinct(g@.map_values(|n: LinkGraphNode| n.article_id)),
            forall|i: int|
                0 <= i < g@.len() ==> g@[i].article_id == self.seen()[i].0 && self.seen()[i].1
                    <= self.max_depth(),
            forall|i: int, j: int|
                0 <= i <= j < g@.len() ==> self.seen()[i].1 <= self.seen()[j].1,
            forall|i: int|
                0 <= i < g@.len() ==> linked_within(
                    g@,
                    self.origin(),
                    g@[i].article_id,
                    self.seen()[i].1 as nat,
                ),
            self.seen().len() < MAX_GRAPH_NODES ==> forall|v: i64, n: nat|
                n <= self.max_depth() && #[trigger] linked_within(g@, self.origin(), v, n)
                    ==> exists|i: int|
                    0 <= i < g@.len() && g@[i].article_id == v && self.seen()[i].1 <= n,
    {
        let ghost h = self.history@;
        proof {
            let g = self.graph@;
            let ids = g.map_values(|n: LinkGraphNode| n.article_id);
            assert forall|i: int, j: int| 0 <= i < j < ids.len() implies ids[i] != ids[j] by {
                assert(queued_ids(h)[i] == ids[i]);
                assert(queued_ids(h)[j] == ids[j]);
            }
            assert(g.len() >= 1) by {
                if g.len() == 0 {
                    assert(self.visited() < self.seen().len());
                }
            }
            assert forall|i: int| 0 <= i < g.len() implies linked_within(
                g,
                self.start,
                g[i].article_id,
                h[i].1 as nat,
            ) by {
                lemma_label_reaches(h, g, self.start, i);
            }
            if h.len() < MAX_GRAPH_NODES {
                assert forall|v: i64, n: nat|
                    n <= self.depth && #[trigger] linked_within(g, self.start, v, n) implies exists|i: int|
                    0 <= i < g.len() && g[i].article_id == v && h[i].1 <= n by {
                    lemma_reach_queued(h, g, self.start, self.depth, v, n);
                }
            }
        }
        self.graph
    }
}

/// Each node of the graph is reached from the start in as many hops as its
/// hop count, through the nodes that found it.
proof fn lemma_label_reaches(h: Seq<(i64, u32)>, g: Seq<LinkGraphNode>, start: i64, i: int)
    requires
        0 <= i < g.len(),
        g.len() <= h.len(),
        h[0] == (start, 0u32),
        forall|x: int| 0 <= x < g.len() ==> g[x].article_id == h[x].0,
        forall|x: int| 0 < x < h.len() ==> #[trigger] has_parent(h, g, x),
    ensures
        linked_within(g, start, h[i].0, h[i].1 as nat),
    decreases i,
{
    if i > 0 {
        assert(has_parent(h, g, i));
        let j = choose|j: int|
            0 <= j < i && j < g.len() && h[j].1 + 1 == h[i].1
                && #[trigger] g[j].linked_article_ids@.contains(h[i].0);
        lemma_label_reaches(h, g, start, j);
        assert(g[j].article_id == h[j].0);
        assert(((h[i].1 as nat) - 1) as nat == h[j].1 as nat);
    }
}

/// Unless the node budget was reached, an article within `n` hops of the
/// start, `n` within the depth limit, was queued at most `n` hops away.
proof fn lemma_reach_queued(
    h: Seq<(i64, u32)>,
    g: Seq<LinkGraphNode>,
    start: i64,
    depth: u32,
    v: i64,
    n: nat,
)
    requires
        g.len() == h.len(),
        1 <= h.len() < MAX_GRAPH_NODES,
        h[0] == (start, 0u32),
        distinct(queued_ids(h)),
        forall|x: int| 0 <= x < g.len() ==> g[x].article_id == h[x].0,
        forall|j: int| 0 <= j < g.len() ==> #[trigger] closed_at(h, g, j, depth),
        n <= depth,
        linked_within(g, start, v, n),
    ensures
        exists|i: int| 0 <= i < g.len() && g[i].article_id == v && h[i].1 <= n,
    decreases n,
{
    if v == start {
        assert(g[0].article_id == v);
    } else {
        let j = choose|j: int|
            0 <= j < g.len() && linked_within(g, start, g[j].article_id, (n - 1) as nat)
                && #[trigger] g[j].linked_article_ids@.contains(v);
        lemma_reach_queued(h, g, start, depth, g[j].article_id, (n - 1) as nat);
        let i2 = choose|i2: int|
            0 <= i2 < g.len() && g[i2].article_id == g[j].article_id && h[i2].1 <= n - 1;
        if i2 != j {
            assert(queued_ids(h)[i2] == queued_ids(h)[j]);
        }
        assert(closed_at(h, g, j, depth));
        let m = choose|m: int|
            0 <= m < g[j].linked_article_ids@.len() && g[j].linked_article_ids@[m] == v;
        assert(queued_within(h, g[j].linked_article_ids@[m], h[j].1 + 1));
        let i = choose|i: int|
            0 <= i < h.len() && h[i].0 == g[j].linked_article_ids@[m] && h[i].1 <= h[j].1 + 1;
        assert(g[i].article_id == v);
    }
}

} // verus!
