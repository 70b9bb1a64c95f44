//! Bookkeeping of the vector similarity index: which article owns which
//! slot of the approximate-nearest-neighbour graph, which slots are
//! tombstoned, and how results of a graph search map back to articles.
use std::collections::{HashMap, HashSet};

use vstd::prelude::*;
use vstd::std_specs::iter::IteratorSpec;
use vstd::relations::injective_on;
use vstd::set_lib::{lemma_map_size, lemma_set_difference_len};

verus! {

broadcast use vstd::std_specs::hash::group_hash_axioms;

/// Declares `std::io::Error` so that errors can carry it.
#[verifier::external_type_specification]
#[verifier::external_body]
pub struct ExIoError(std::io::Error);

/// Errors of the vector similarity index.
#[derive(Debug)]
pub enum VectorError {
    Io(std::io::Error),
    DimensionMismatch { expected: usize, actual: usize },
    DuplicateEntry(i64),
    NotFound(i64),
    Persistence(String),
    LockPoisoned(String),
}

/// Abstract state of the index bookkeeping.
pub struct Book {
    /// Slot currently assigned to each article that was ever added.
    pub ids: Map<i64, usize>,
    /// Article stored in each slot that still holds data.
    pub slots: Map<usize, i64>,
    /// Slots whose article has been removed.
    pub tombs: Set<usize>,
    /// Next slot to hand out.
    pub next: nat,
    /// Length every embedding must have.
    pub dims: nat,
}

/// An article is live when it has a slot that is not tombstoned.
pub open spec fn live(b: Book, a: i64) -> bool {
    b.ids.contains_key(a) && !b.tombs.contains(b.ids[a])
}

/// The articles currently in the index.
pub open spec fn live_ids(b: Book) -> Set<i64> {
    b.ids.dom().filter(|a: i64| !b.tombs.contains(b.ids[a]))
}

/// Giving article `a` a fresh slot: an earlier, tombstoned slot of `a` is
/// forgotten.
pub open spec fn assign(b: Book, a: i64) -> Book {
    if b.ids.contains_key(a) {
        let old_slot = b.ids[a];
        Book {
            ids: b.ids.insert(a, b.next as usize),
            slots: b.slots.remove(old_slot).insert(b.next as usize, a),
            tombs: b.tombs.remove(old_slot),
            next: b.next + 1,
            dims: b.dims,
        }
    } else {
        Book {
            ids: b.ids.insert(a, b.next as usize),
            slots: b.slots.insert(b.next as usize, a),
            tombs: b.tombs,
            next: b.next + 1,
            dims: b.dims,
        }
    }
}

/// Tombstoning the slot of article `a`.
pub open spec fn tombstone(b: Book, a: i64) -> Book {
    Book { tombs: b.tombs.insert(b.ids[a]), ..b }
}

/// Compacting: tombstoned slots are forgotten, and so are the removed
/// articles that owned them; live articles keep their slots.
pub open spec fn rebuilt(b: Book) -> Book {
    Book {
        ids: b.ids.restrict(live_ids(b)),
        tombs: Set::empty(),
        slots: b.slots.remove_keys(b.tombs),
        ..b
    }
}

/// Consistency of the bookkeeping: slots are handed out once, every slot
/// that holds data belongs to the article that owns it, every tombstone is
/// the slot of some article, and every slot is below the next one to hand
/// out.
pub open spec fn book_wf(b: Book) -> bool {
    parts_wf(b.ids, b.slots, b.tombs, b.next)
}

/// `book_wf` on the parts of a book.
pub open spec fn parts_wf(
    ids: Map<i64, usize>,
    slots: Map<usize, i64>,
    tombs: Set<usize>,
    next: nat,
) -> bool {
    &&& forall|a1: i64, a2: i64|
        #![trigger ids[a1], ids[a2]]
        ids.contains_key(a1) && ids.contains_key(a2) && a1 != a2 ==> ids[a1] != ids[a2]
    &&& forall|s: usize| #[trigger]
        slots.contains_key(s) ==> ids.contains_key(slots[s]) && ids[slots[s]] == s
    &&& forall|t: usize| #[trigger]
        tombs.contains(t) ==> exists|a: i64| ids.contains_key(a) && #[trigger] ids[a] == t
    &&& forall|a: i64| #[trigger] ids.contains_key(a) ==> ids[a] < next
    &&& ids.dom().finite()
    &&& slots.dom().finite()
}

/// Saved bookkeeping can be read back for embeddings of `expected_dims`
/// values: the saved length matches, both slot maps have the same size, and
/// the parts are consistent bookkeeping. The last condition is this
/// library's own: a state that breaks it would make later answers wrong
/// (see `IndexState::restore`).
pub open spec fn restorable(expected_dims: usize, b: Book) -> bool {
    b.dims == expected_dims && b.ids.len() == b.slots.len() && book_wf(b)
}

/// The slot article `a` had before, if it had one.
pub open spec fn previous_slot(b: Book, a: i64) -> Option<usize> {
    if b.ids.contains_key(a) {
        Some(b.ids[a])
    } else {
        None
    }
}

/// What `add` answers for article `a` with an embedding of `len` values.
pub open spec fn add_result(b: Book, a: i64, len: usize) -> Result<AddOutcome, VectorError> {
    if len != b.dims {
        Err(VectorError::DimensionMismatch { expected: b.dims as usize, actual: len })
    } else if live(b, a) {
        Err(VectorError::DuplicateEntry(a))
    } else {
        Ok(AddOutcome { internal_id: b.next as usize, replaced: previous_slot(b, a) })
    }
}

/// The first problem `add_batch` finds among `items` (article, embedding
/// length), checking each against the bookkeeping as it was before the call.
pub open spec fn batch_error(b: Book, items: Seq<(i64, usize)>) -> Option<VectorError>
    decreases items.len(),
{
    if items.len() == 0 {
        None
    } else if items[0].1 != b.dims {
        Some(VectorError::DimensionMismatch { expected: b.dims as usize, actual: items[0].1 })
    } else if live(b, items[0].0) {
        Some(VectorError::DuplicateEntry(items[0].0))
    } else {
        batch_error(b, items.drop_first())
    }
}

/// Assigning fresh slots to `ids` in order.
pub open spec fn assign_all(b: Book, ids: Seq<i64>) -> Book
    decreases ids.len(),
{
    if ids.len() == 0 {
        b
    } else {
        assign(assign_all(b, ids.drop_last()), ids.last())
    }
}

/// The article ids of a batch.
pub open spec fn batch_ids(items: Seq<(i64, usize)>) -> Seq<i64> {
    items.map_values(|it: (i64, usize)| it.0)
}

/// One slot handed out by `add_batch`.
#[derive(Debug)]
pub struct BatchSlot {
    pub article_id: i64,
    pub internal_id: usize,
    pub replaced: Option<usize>,
}

/// Slots that `add_batch` hands out: the `k`-th item gets slot `next + k`,
/// and forgets the slot its article had just before.
pub open spec fn batch_slots_ok(b: Book, ids: Seq<i64>, out: Seq<BatchSlot>) -> bool {
    &&& out.len() == ids.len()
    &&& forall|k: int|
        0 <= k < ids.len() ==> (#[trigger] out[k]).article_id == ids[k] && out[k].internal_id
            == b.next + k && out[k].replaced == previous_slot(assign_all(b, ids.take(k)), ids[k])
}

/// A search over the graph: how many neighbours to ask for and the
/// breadth of the search.
#[derive(Debug)]
pub struct SearchPlan {
    pub overfetch: usize,
    pub ef: usize,
}

/// Default breadth of a graph search.
pub const DEFAULT_EF_SEARCH: usize = 32;

/// What `plan_search` answers for a query of `query_len` values.
pub open spec fn search_plan(b: Book, query_len: usize, limit: usize) -> Result<
    Option<SearchPlan>,
    VectorError,
> {
    if query_len != b.dims {
        Err(VectorError::DimensionMismatch { expected: b.dims as usize, actual: query_len })
    } else if live_ids(b).len() == 0 || limit == 0 {
        Ok(None)
    } else {
        let wanted = if limit + b.tombs.len() > usize::MAX {
            usize::MAX as int
        } else {
            limit + b.tombs.len()
        };
        let overfetch = if wanted < b.ids.dom().len() {
            wanted
        } else {
            b.ids.dom().len() as int
        };
        Ok(
            Some(
                SearchPlan {
                    overfetch: overfetch as usize,
                    ef: if overfetch > DEFAULT_EF_SEARCH {
                        overfetch as usize
                    } else {
                        DEFAULT_EF_SEARCH
                    },
                },
            ),
        )
    }
}

/// The neighbours of a graph search that belong to live articles, as
/// (position in the search result, article), in search order.
pub open spec fn resolved(b: Book, ns: Seq<usize>) -> Seq<(usize, i64)>
    decreases ns.len(),
{
    if ns.len() == 0 {
        Seq::empty()
    } else {
        let r = resolved(b, ns.drop_last());
        let d = ns.last();
        if !b.tombs.contains(d) && b.slots.contains_key(d) {
            r.push(((ns.len() - 1) as usize, b.slots[d]))
        } else {
            r
        }
    }
}

/// At most the first `n` elements of `s`.
pub open spec fn take_at_most<A>(s: Seq<A>, n: int) -> Seq<A> {
    if s.len() <= n {
        s
    } else {
        s.take(n)
    }
}

/// What a successful `add` did: the slot the article now has, and the
/// tombstoned slot it had before, if any.
#[derive(Debug)]
pub struct AddOutcome {
    pub internal_id: usize,
    pub replaced: Option<usize>,
}

/// Bookkeeping of a vector index.
#[derive(Debug)]
pub struct IndexState {
    dimensions: usize,
    next_internal_id: usize,
    id_to_internal: HashMap<i64, usize>,
    internal_to_id: HashMap<usize, i64>,
    tombstones: HashSet<usize>,
    inserts_since_save: usize,
}

impl View for IndexState {
    type V = Book;

    closed spec fn view(&self) -> Book {
        Book {
            ids: self.id_to_internal@,
            slots: self.internal_to_id@,
            tombs: self.tombstones@,
            next: self.next_internal_id as nat,
            dims: self.dimensions as nat,
        }
    }
}

impl IndexState {
    #[verifier::type_invariant]
    closed spec fn inv(self) -> bool {
        book_wf(self@)
    }

    /// Inserts counted since the state was last saved.
    pub closed spec fn pending_inserts(&self) -> nat {
        self.inserts_since_save as nat
    }

    /// An empty index for embeddings of `dimensions` values; an index for
    /// empty embeddings is refused as a dimension mismatch (at least one
    /// value expected, none given).
    pub fn open_empty(dimensions: usize) -> (r: Result<Self, VectorError>)
        ensures
            dimensions == 0 ==> r == Err::<Self, VectorError>(
                VectorError::DimensionMismatch { expected: 1, actual: 0 },
            ),
            dimensions > 0 ==> (r matches Ok(st) && st@ == Book {
                ids: Map::empty(),
                slots: Map::empty(),
                tombs: Set::empty(),
                next: 0,
                dims: dimensions as nat,
            } && st.pending_inserts() == 0),
    {
        if dimensions == 0 {
            return Err(VectorError::DimensionMismatch { expected: 1, actual: 0 });
        }
        Ok(IndexState::new(dimensions))
    }

    /// An empty index for embeddings of `dimensions` values.
    pub fn new(dimensions: usize) -> (r: Self)
        ensures
            r@.ids == Map::<i64, usize>::empty(),
            r@.slots == Map::<usize, i64>::empty(),
            r@.tombs == Set::<usize>::empty(),
            r@.next == 0,
            r@.dims == dimensions,
            r.pending_inserts() == 0,
    {
        IndexState {
            dimensions,
            next_internal_id: 0,
            id_to_internal: HashMap::new(),
            internal_to_id: HashMap::new(),
            tombstones: HashSet::new(),
            inserts_since_save: 0,
        }
    }

    /// The length every embedding must have.
    pub fn dimensions(&self) -> (d: usize)
        ensures
            d == self@.dims,
            book_wf(self@),
    {
        proof {
            use_type_invariant(self);
        }
        self.dimensions
    }

    /// Whether article `article_id` is in the index (added and not removed).
    pub fn contains(&self, article_id: i64) -> (r: bool)
        ensures
            r == live(self@, article_id),
            book_wf(self@),
    {
        proof {
            use_type_invariant(self);
        }
        match self.id_to_internal.get(&article_id) {
            Some(iid) => !self.tombstones.contains(iid),
            None => false,
        }
    }

    /// Give each (article, embedding length) of `items` a fresh slot, in
    /// order. Nothing changes unless every item has the index's length and
    /// names an article that is not live; the first item that fails decides
    /// the error.
    pub fn add_batch(&mut self, items: &[(i64, usize)]) -> (r: Result<Vec<BatchSlot>, VectorError>)
        requires
            old(self)@.next + items@.len() < usize::MAX,
        ensures
            match batch_error(old(self)@, items@) {
                Some(e) => r == Err::<Vec<BatchSlot>, VectorError>(e) && final(self)@ == old(self)@,
                None => r is Ok && batch_slots_ok(old(self)@, batch_ids(items@), r->Ok_0@)
                    && final(self)@ == assign_all(old(self)@, batch_ids(items@)) && live_ids(
                    final(self)@,
                ) == live_ids(old(self)@) + batch_ids(items@).to_set(),
            },
            final(self).pending_inserts() == old(self).pending_inserts(),
    {
        proof {
            use_type_invariant(&*self);
        }
        let ghost b0 = self@;
        let mut i: usize = 0;
        assert(items@.skip(0) =~= items@);
        while i < items.len()
            invariant
                self@ == b0,
                i <= items@.len(),
                batch_error(b0, items@) == batch_error(b0, items@.skip(i as int)),
            decreases items@.len() - i,
        {
            let (article_id, len) = items[i];
            assert(items@.skip(i as int).drop_first() =~= items@.skip(i + 1));
            if len != self.dimensions {
                return Err(VectorError::DimensionMismatch { expected: self.dimensions, actual: len });
            }
            if self.contains(article_id) {
                return Err(VectorError::DuplicateEntry(article_id));
            }
            i += 1;
        }
        let ghost ids = batch_ids(items@);
        let mut out: Vec<BatchSlot> = Vec::new();
        let mut j: usize = 0;
        while j < items.len()
            invariant
                j <= items@.len(),
                ids == batch_ids(items@),
                b0.next + items@.len() < usize::MAX,
                self@ == assign_all(b0, ids.take(j as int)),
                self.pending_inserts() == old(self).pending_inserts(),
                out@.len() == j,
                forall|k: int|
                    0 <= k < j ==> (#[trigger] out@[k]).article_id == ids[k] && out@[k].internal_id
                        == b0.next + k && out@[k].replaced == previous_slot(
                        assign_all(b0, ids.take(k)),
                        ids[k],
                    ),
            decreases items@.len() - j,
        {
            proof {
                lemma_assign_all_next(b0, ids.take(j as int));
            }
            let article_id = items[j].0;
            let internal_id = self.next_internal_id;
            let existing = match self.id_to_internal.get(&article_id) {
                Some(iid) => Some(*iid),
                None => None,
            };
            self.reassign(article_id, existing);
            out.push(BatchSlot { article_id, internal_id, replaced: existing });
            assert(ids.take(j + 1).drop_last() =~= ids.take(j as int));
            j += 1;
        }
        assert(ids.take(items@.len() as int) =~= ids);
        proof {
            lemma_batch_error_none(b0, items@);
            lemma_batch_inserts(b0, ids);
        }
        Ok(out)
    }

    /// Forget every tombstoned slot and the removed article that owned it,
    /// returning the slots dropped. Live articles keep the slot they were
    /// last given, so the index holds the same articles as before.
    pub fn rebuild(&mut self) -> (removed: Vec<usize>)
        ensures
            removed@.to_set() == old(self)@.tombs,
            removed@.no_duplicates(),
            final(self)@ == rebuilt(old(self)@),
            live_ids(final(self)@) == live_ids(old(self)@),
            final(self).pending_inserts() == old(self).pending_inserts(),
    {
        proof {
            use_type_invariant(&*self);
        }
        let ghost old_book = self@;
        let mut removed: Vec<usize> = Vec::new();
        for t in it: self.tombstones.iter()
            invariant
                removed@ == it.seq().take(it.index()).unref(),
        {
            removed.push(*t);
        }
        assert(removed@ =~= self.tombstones.iter().remaining().unref());
        let mut taken = IndexState::new(self.dimensions);
        std::mem::swap(self, &mut taken);
        let IndexState {
            dimensions,
            next_internal_id,
            id_to_internal,
            internal_to_id: mut slots,
            tombstones: tombs,
            inserts_since_save,
        } = taken;
        // The articles whose slot is not tombstoned.
        let mut kept: HashMap<i64, usize> = HashMap::new();
        let ghost seq1 = id_to_internal.iter().remaining();
        for (a, s) in it: id_to_internal.iter()
            invariant
                it.seq() == seq1,
                seq1 == id_to_internal.iter().remaining(),
                id_to_internal@ == old_book.ids,
                tombs@ == old_book.tombs,
                forall|x: i64| #[trigger]
                    kept@.contains_key(x) ==> old_book.ids.contains_key(x) && kept@[x]
                        == old_book.ids[x] && !old_book.tombs.contains(old_book.ids[x]),
                forall|j: int|
                    0 <= j < it.index() ==> (!old_book.tombs.contains(*(#[trigger] seq1[j]).1)
                        ==> kept@.contains_key(*seq1[j].0)),
        {
            let article = *a;
            let slot = *s;
            assert(old_book.ids.contains_key(article) && old_book.ids[article] == slot);
            if !tombs.contains(&slot) {
                kept.insert(article, slot);
            }
        }
        assert(kept@ =~= old_book.ids.restrict(live_ids(old_book))) by {
            assert forall|x: i64| live(old_book, x) implies #[trigger] kept@.contains_key(x) by {
                assert(seq1.contains((&x, &old_book.ids[x])));
                let j = choose|j: int| 0 <= j < seq1.len() && seq1[j] == (&x, &old_book.ids[x]);
                assert(*seq1[j].1 == old_book.ids[x]);
            }
        }
        let mut k: usize = 0;
        while k < removed.len()
            invariant
                k <= removed@.len(),
                slots@ == old_book.slots.remove_keys(removed@.take(k as int).to_set()),
            decreases removed@.len() - k,
        {
            slots.remove(&removed[k]);
            assert(removed@.take(k + 1) =~= removed@.take(k as int).push(removed@[k as int]));
            proof {
                removed@.take(k as int).lemma_push_to_set_commute(removed@[k as int]);
            }
            k += 1;
        }
        assert(removed@.take(removed@.len() as int) =~= removed@);
        proof {
            lemma_rebuilt_wf(old_book);
            lemma_rebuild_keeps_live_set(old_book);
        }
        *self = IndexState {
            dimensions,
            next_internal_id,
            id_to_internal: kept,
            internal_to_id: slots,
            tombstones: HashSet::new(),
            inserts_since_save,
        };
        removed
    }

    /// Count `n` more inserts; true when an auto-save is due, that is when
    /// `interval` is positive and the count has reached it.
    pub fn note_inserts(&mut self, n: usize, interval: usize) -> (save_now: bool)
        requires
            old(self).pending_inserts() + n <= usize::MAX,
        ensures
            final(self)@ == old(self)@,
            final(self).pending_inserts() == old(self).pending_inserts() + n,
            save_now == (interval > 0 && final(self).pending_inserts() >= interval),
    {
        proof {
            use_type_invariant(&*self);
        }
        self.inserts_since_save = self.inserts_since_save + n;
        interval > 0 && self.inserts_since_save >= interval
    }

    /// Inserts counted since the state was last saved.
    pub fn inserts_since_save(&self) -> (n: usize)
        ensures
            n == self.pending_inserts(),
    {
        self.inserts_since_save
    }

    /// Reset the insert count after the state was saved.
    pub fn mark_saved(&mut self)
        ensures
            final(self)@ == old(self)@,
            final(self).pending_inserts() == 0,
    {
        proof {
            use_type_invariant(&*self);
        }
        self.inserts_since_save = 0;
    }

    /// Decide how to search for a query of `query_len` values:
    /// `DimensionMismatch` for a wrong length, nothing to search when the
    /// index has no live article or `limit` is 0, and otherwise how many
    /// neighbours to fetch so that tombstoned ones can be dropped.
    pub fn plan_search(&self, query_len: usize, limit: usize) -> (r: Result<
        Option<SearchPlan>,
        VectorError,
    >)
        ensures
            r == search_plan(self@, query_len, limit),
    {
        proof {
            use_type_invariant(self);
            lemma_live_count(self@);
        }
        if query_len != self.dimensions {
            return Err(VectorError::DimensionMismatch { expected: self.dimensions, actual: query_len });
        }
        let live_count = self.count();
        if live_count == 0 || limit == 0 {
            return Ok(None);
        }
        let total_points = self.id_to_internal.len();
        let wanted = limit.saturating_add(self.tombstones.len());
        let overfetch = if wanted < total_points {
            wanted
        } else {
            total_points
        };
        let ef = if overfetch > DEFAULT_EF_SEARCH {
            overfetch
        } else {
            DEFAULT_EF_SEARCH
        };
        Ok(Some(SearchPlan { overfetch, ef }))
    }

    /// Map the slots a graph search returned, in order, to live articles,
    /// dropping tombstoned and forgotten slots and keeping at most `limit`.
    pub fn resolve_neighbours(&self, neighbours: &[usize], limit: usize) -> (r: Vec<(usize, i64)>)
        ensures
            r@ == take_at_most(resolved(self@, neighbours@), limit as int),
            forall|k: int| 0 <= k < r@.len() ==> live(self@, #[trigger] r@[k].1),
    {
        proof {
            use_type_invariant(self);
            lemma_resolved_live(self@, neighbours@);
        }
        let mut out: Vec<(usize, i64)> = Vec::new();
        let mut i: usize = 0;
        while i < neighbours.len()
            invariant
                i <= neighbours@.len(),
                out@ == take_at_most(resolved(self@, neighbours@.take(i as int)), limit as int),
            decreases neighbours@.len() - i,
        {
            let d = neighbours[i];
            assert(neighbours@.take(i + 1).drop_last() =~= neighbours@.take(i as int));
            if !self.tombstones.contains(&d) {
                if let Some(article_id) = self.internal_to_id.get(&d) {
                    if out.len() < limit {
                        out.push((i, *article_id));
                    }
                    assert(out@ =~= take_at_most(
                        resolved(self@, neighbours@.take(i + 1)),
                        limit as int,
                    ));
                }
            }
            i += 1;
            assert(out@ =~= take_at_most(resolved(self@, neighbours@.take(i as int)), limit as int));
        }
        assert(neighbours@.take(neighbours@.len() as int) =~= neighbours@);
        assert forall|k: int| 0 <= k < out@.len() implies live(self@, #[trigger] out@[k].1) by {
            assert(out@[k] == resolved(self@, neighbours@)[k]);
        }
        out
    }

    /// Rebuild the bookkeeping read back from disk, for embeddings of
    /// `expected_dims` values. Fails with `DimensionMismatch` when the saved
    /// length differs, and with `Persistence` when the two slot maps have
    /// different sizes. It also fails with `Persistence` when the parts are
    /// not consistent bookkeeping (`book_wf`), a check beyond the length
    /// test: a state with a slot at or past the next one to hand out, a slot
    /// owned by two articles, or a tombstone that no article owns would
    /// later hand a slot out twice, report a removed article as present, or
    /// count fewer than zero live articles, so it is refused rather than
    /// loaded.
    pub fn restore(
        expected_dims: usize,
        dimensions: usize,
        next_internal_id: usize,
        id_to_internal: HashMap<i64, usize>,
        internal_to_id: HashMap<usize, i64>,
        tombstones: HashSet<usize>,
    ) -> (r: Result<Self, VectorError>)
        ensures
            ({
                let b = Book {
                    ids: id_to_internal@,
                    slots: internal_to_id@,
                    tombs: tombstones@,
                    next: next_internal_id as nat,
                    dims: dimensions as nat,
                };
                &&& dimensions != expected_dims ==> r == Err::<Self, VectorError>(
                    VectorError::DimensionMismatch { expected: expected_dims, actual: dimensions },
                )
                &&& dimensions == expected_dims && id_to_internal@.len()
                    != internal_to_id@.len() ==> r is Err && r->Err_0 is Persistence
                &&& r is Ok <==> restorable(expected_dims, b)
                &&& r is Err ==> r->Err_0 is DimensionMismatch || r->Err_0 is Persistence
                &&& r matches Ok(st) ==> st@ == b && st.pending_inserts() == 0
            }),
    {
        let ghost b = Book {
            ids: id_to_internal@,
            slots: internal_to_id@,
            tombs: tombstones@,
            next: next_internal_id as nat,
            dims: dimensions as nat,
        };
        if dimensions != expected_dims {
            return Err(VectorError::DimensionMismatch { expected: expected_dims, actual: dimensions });
        }
        if id_to_internal.len() != internal_to_id.len() {
            return Err(
                VectorError::Persistence(
                    "id_to_internal and internal_to_id have different lengths".to_string(),
                ),
            );
        }
        let consistent = consistent_parts(
            next_internal_id,
            &id_to_internal,
            &internal_to_id,
            &tombstones,
        );
        if !consistent {
            return Err(VectorError::Persistence("inconsistent index state".to_string()));
        }
        Ok(
            IndexState {
                dimensions,
                next_internal_id,
                id_to_internal,
                internal_to_id,
                tombstones,
                inserts_since_save: 0,
            },
        )
    }

    /// The slot of each article ever added.
    pub fn id_to_internal(&self) -> (m: &HashMap<i64, usize>)
        ensures
            m@ == self@.ids,
    {
        &self.id_to_internal
    }

    /// The article of each slot that holds data.
    pub fn internal_to_id(&self) -> (m: &HashMap<usize, i64>)
        ensures
            m@ == self@.slots,
    {
        &self.internal_to_id
    }

    /// The tombstoned slots.
    pub fn tombstones(&self) -> (s: &HashSet<usize>)
        ensures
            s@ == self@.tombs,
    {
        &self.tombstones
    }

    /// The next slot to hand out.
    pub fn next_internal_id(&self) -> (n: usize)
        ensures
            n == self@.next,
    {
        self.next_internal_id
    }

    /// Whether slot `internal_id` is tombstoned.
    pub fn is_tombstoned(&self, internal_id: usize) -> (r: bool)
        ensures
            r == self@.tombs.contains(internal_id),
    {
        self.tombstones.contains(&internal_id)
    }

    /// Number of live articles.
    pub fn count(&self) -> (n: usize)
        ensures
            n == live_ids(self@).len(),
            book_wf(self@),
    {
        proof {
            use_type_invariant(self);
            lemma_live_count(self@);
        }
        self.id_to_internal.len() - self.tombstones.len()
    }

    /// Tombstone article `article_id`; `NotFound` unless it is live.
    pub fn remove(&mut self, article_id: i64) -> (r: Result<(), VectorError>)
        ensures
            r == (if live(old(self)@, article_id) {
                Ok(())
            } else {
                Err(VectorError::NotFound(article_id))
            }),
            final(self)@ == (if r is Ok {
                tombstone(old(self)@, article_id)
            } else {
                old(self)@
            }),
            r is Ok ==> live_ids(final(self)@) == live_ids(old(self)@).remove(article_id),
            final(self).pending_inserts() == old(self).pending_inserts(),
    {
        proof {
            use_type_invariant(&*self);
            if live(self@, article_id) {
                lemma_remove_deletes(self@, article_id);
            }
        }
        let internal_id = match self.id_to_internal.get(&article_id) {
            Some(iid) => *iid,
            None => return Err(VectorError::NotFound(article_id)),
        };
        if self.tombstones.contains(&internal_id) {
            return Err(VectorError::NotFound(article_id));
        }
        let ghost old_book = self@;
        let mut taken = IndexState::new(self.dimensions);
        std::mem::swap(self, &mut taken);
        let IndexState {
            dimensions,
            next_internal_id,
            id_to_internal,
            internal_to_id,
            tombstones: mut tombs,
            inserts_since_save,
        } = taken;
        tombs.insert(internal_id);
        proof {
            lemma_tombstone_wf(old_book, article_id);
        }
        *self = IndexState {
            dimensions,
            next_internal_id,
            id_to_internal,
            internal_to_id,
            tombstones: tombs,
            inserts_since_save,
        };
        Ok(())
    }

    /// Give article `article_id` a fresh slot for an embedding of
    /// `embedding_len` values. Fails with `DimensionMismatch` when the length
    /// is not the index's, and with `DuplicateEntry` when the article is
    /// live; a tombstoned earlier slot of the article is forgotten.
    pub fn add(&mut self, article_id: i64, embedding_len: usize) -> (r: Result<
        AddOutcome,
        VectorError,
    >)
        requires
            old(self)@.next < usize::MAX,
        ensures
            r == add_result(old(self)@, article_id, embedding_len),
            final(self)@ == (if r is Ok {
                assign(old(self)@, article_id)
            } else {
                old(self)@
            }),
            r is Ok ==> live_ids(final(self)@) == live_ids(old(self)@).insert(article_id),
            final(self).pending_inserts() == old(self).pending_inserts(),
    {
        proof {
            use_type_invariant(&*self);
            if !live(self@, article_id) {
                lemma_add_inserts(self@, article_id);
            }
        }
        if embedding_len != self.dimensions {
            return Err(
                VectorError::DimensionMismatch { expected: self.dimensions, actual: embedding_len },
            );
        }
        if self.contains(article_id) {
            return Err(VectorError::DuplicateEntry(article_id));
        }
        let internal_id = self.next_internal_id;
        let replaced = self.take_slot(article_id);
        match replaced {
            Err(e) => Err(e),
            Ok(replaced) => Ok(AddOutcome { internal_id, replaced }),
        }
    }

    /// Shared step of `add` and `add_batch`: when `check_live`, refuse a live
    /// article; otherwise assign it the next slot.
    fn take_slot(&mut self, article_id: i64) -> (r: Result<Option<usize>, VectorError>)
        requires
            old(self)@.next < usize::MAX,
        ensures
            r == (if live(old(self)@, article_id) {
                Err(VectorError::DuplicateEntry(article_id))
            } else {
                Ok(previous_slot(old(self)@, article_id))
            }),
            final(self)@ == (if r is Ok {
                assign(old(self)@, article_id)
            } else {
                old(self)@
            }),
            final(self).pending_inserts() == old(self).pending_inserts(),
    {
        proof {
            use_type_invariant(&*self);
        }
        let existing = match self.id_to_internal.get(&article_id) {
            Some(iid) => Some(*iid),
            None => None,
        };
        if let Some(iid) = existing {
            if !self.tombstones.contains(&iid) {
                return Err(VectorError::DuplicateEntry(article_id));
            }
        }
        self.reassign(article_id, existing);
        Ok(existing)
    }

    /// Move article `article_id` to the next slot, forgetting `existing`.
    fn reassign(&mut self, article_id: i64, existing: Option<usize>)
        requires
            old(self)@.next < usize::MAX,
            existing == previous_slot(old(self)@, article_id),
        ensures
            final(self)@ == assign(old(self)@, article_id),
            final(self).pending_inserts() == old(self).pending_inserts(),
    {
        proof {
            use_type_invariant(&*self);
        }
        let ghost old_book = self@;
        let mut taken = IndexState::new(self.dimensions);
        std::mem::swap(self, &mut taken);
        let IndexState {
            dimensions,
            next_internal_id,
            id_to_internal: mut ids,
            internal_to_id: mut slots,
            tombstones: mut tombs,
            inserts_since_save,
        } = taken;
        if let Some(iid) = existing {
            tombs.remove(&iid);
            slots.remove(&iid);
        }
        ids.insert(article_id, next_internal_id);
        slots.insert(next_internal_id, article_id);
        let ghost nb = Book {
            ids: ids@,
            slots: slots@,
            tombs: tombs@,
            next: (next_internal_id + 1) as nat,
            dims: dimensions as nat,
        };
        assert(nb == assign(old_book, article_id));
        proof {
            lemma_assign_wf(old_book, article_id);
        }
        *self = IndexState {
            dimensions,
            next_internal_id: next_internal_id + 1,
            id_to_internal: ids,
            internal_to_id: slots,
            tombstones: tombs,
            inserts_since_save,
        };
    }
}

/// The articles whose slot is tombstoned.
pub open spec fn dead_ids(b: Book) -> Set<i64> {
    b.ids.dom().filter(|a: i64| b.tombs.contains(b.ids[a]))
}

/// In consistent bookkeeping every tombstone belongs to exactly one article,
/// so the number of live articles is the number of articles minus the
/// number of tombstones.
pub proof fn lemma_live_count(b: Book)
    requires
        book_wf(b),
    ensures
        b.tombs.finite(),
        b.tombs.len() <= b.ids.dom().len(),
        live_ids(b).len() == b.ids.dom().len() - b.tombs.len(),
{
    let dead = dead_ids(b);
    let f = |a: i64| b.ids[a];
    assert(dead.subset_of(b.ids.dom()));
    vstd::set_lib::lemma_len_subset(dead, b.ids.dom());
    assert(injective_on(f, dead)) by {
        assert forall|x1: i64, x2: i64|
            dead.contains(x1) && dead.contains(x2) && #[trigger] f(x1) == #[trigger] f(x2) implies x1
            == x2 by {
            if x1 != x2 {
                assert(b.ids[x1] != b.ids[x2]);
            }
        }
    }
    assert(dead.map(f) =~= b.tombs) by {
        assert forall|t: usize| b.tombs.contains(t) implies #[trigger] dead.map(f).contains(t) by {
            let x = choose|x: i64| b.ids.contains_key(x) && #[trigger] b.ids[x] == t;
            assert(dead.contains(x) && t == f(x));
        }
    }
    lemma_map_size(dead, b.tombs, f);
    lemma_set_difference_len(b.ids.dom(), dead);
    assert(b.ids.dom().intersect(dead) =~= dead);
    assert(live_ids(b) =~= b.ids.dom().difference(dead));
}

/// Whether saved parts form consistent bookkeeping (`book_wf`).
fn consistent_parts(
    next: usize,
    ids: &HashMap<i64, usize>,
    slots: &HashMap<usize, i64>,
    tombs: &HashSet<usize>,
) -> (r: bool)
    ensures
        r == parts_wf(ids@, slots@, tombs@, next as nat),
{
    let ghost b = Book { ids: ids@, slots: slots@, tombs: tombs@, next: next as nat, dims: 0 };
    // Inverse of `ids`, built while checking that no slot is given twice.
    let mut inverse: HashMap<usize, i64> = HashMap::new();
    let ghost seq1 = ids.iter().remaining();
    for (a, s) in it: ids.iter()
        invariant
            it.seq() == seq1,
            seq1 == ids.iter().remaining(),
            forall|x: usize| #[trigger]
                inverse@.contains_key(x) ==> ids@.contains_key(inverse@[x]) && ids@[inverse@[x]]
                    == x,
            forall|j: int|
                0 <= j < it.index() ==> inverse@.contains_key(*(#[trigger] seq1[j]).1)
                    && inverse@[*seq1[j].1] == *seq1[j].0 && *seq1[j].1 < next,
    {
        let slot = *s;
        let article = *a;
        assert(ids@.contains_key(article) && ids@[article] == slot);
        if slot >= next {
            return false;
        }
        match inverse.get(&slot) {
            Some(prev) => {
                if *prev != article {
                    assert(ids@[*prev] == slot);
                    return false;
                }
            },
            None => {
                inverse.insert(slot, article);
            },
        }
    }
    assert forall|a: i64| #[trigger] ids@.contains_key(a) implies inverse@.contains_key(ids@[a])
        && inverse@[ids@[a]] == a && ids@[a] < next by {
        assert(seq1.contains((&a, &ids@[a])));
        let j = choose|j: int| 0 <= j < seq1.len() && seq1[j] == (&a, &ids@[a]);
        assert(*seq1[j].1 == ids@[a]);
    }
    let ghost seq2 = slots.iter().remaining();
    for (s, a) in it: slots.iter()
        invariant
            it.seq() == seq2,
            seq2 == slots.iter().remaining(),
            forall|a: i64| #[trigger]
                ids@.contains_key(a) ==> inverse@.contains_key(ids@[a]) && inverse@[ids@[a]] == a
                    && ids@[a] < next,
            forall|x: usize| #[trigger]
                inverse@.contains_key(x) ==> ids@.contains_key(inverse@[x]) && ids@[inverse@[x]]
                    == x,
            forall|j: int|
                0 <= j < it.index() ==> ids@.contains_key(*(#[trigger] seq2[j]).1)
                    && ids@[*seq2[j].1] == *seq2[j].0,
    {
        let slot = *s;
        let article = *a;
        assert(slots@.contains_key(slot) && slots@[slot] == article);
        match ids.get(&article) {
            Some(owned) => {
                if *owned != slot {
                    return false;
                }
            },
            None => {
                return false;
            },
        }
    }
    assert forall|x: usize| #[trigger] slots@.contains_key(x) implies ids@.contains_key(slots@[x])
        && ids@[slots@[x]] == x by {
        assert(seq2.contains((&x, &slots@[x])));
        let j = choose|j: int| 0 <= j < seq2.len() && seq2[j] == (&x, &slots@[x]);
        assert(*seq2[j].0 == x);
    }
    let ghost seq3 = tombs.iter().remaining();
    for t in it: tombs.iter()
        invariant
            it.seq() == seq3,
            seq3 == tombs.iter().remaining(),
            b == (Book { ids: ids@, slots: slots@, tombs: tombs@, next: next as nat, dims: 0 }),
            forall|a: i64| #[trigger]
                ids@.contains_key(a) ==> inverse@.contains_key(ids@[a]) && inverse@[ids@[a]] == a
                    && ids@[a] < next,
            forall|x: usize| #[trigger]
                slots@.contains_key(x) ==> ids@.contains_key(slots@[x]) && ids@[slots@[x]] == x,
            forall|x: usize| #[trigger]
                inverse@.contains_key(x) ==> ids@.contains_key(inverse@[x]) && ids@[inverse@[x]]
                    == x,
            forall|j: int| 0 <= j < it.index() ==> inverse@.contains_key(*(#[trigger] seq3[j])),
    {
        let tv = *t;
        if !inverse.contains_key(&tv) {
            assert(tombs@.contains(tv)) by {
                assert(seq3.unref()[it.index()] == tv);
                assert(seq3.unref().contains(tv));
                assert(seq3.unref().to_set().contains(tv));
            }
            assert(!(exists|a: i64| b.ids.contains_key(a) && #[trigger] b.ids[a] == tv)) by {
                assert forall|a: i64| b.ids.contains_key(a) implies #[trigger] b.ids[a] != tv by {
                    assert(inverse@.contains_key(ids@[a]));
                }
            }
            assert(!parts_wf(ids@, slots@, tombs@, next as nat));
            return false;
        }
    }
    assert forall|x: usize| #[trigger] b.tombs.contains(x) implies exists|a: i64|
        b.ids.contains_key(a) && #[trigger] b.ids[a] == x by {
        assert(seq3.unref().to_set().contains(x));
        let j = choose|j: int| 0 <= j < seq3.unref().len() && seq3.unref()[j] == x;
        assert(inverse@.contains_key(*seq3[j]));
        assert(b.ids.contains_key(inverse@[x]) && b.ids[inverse@[x]] == x);
    }
    assert forall|a1: i64, a2: i64|
        #![trigger ids@[a1], ids@[a2]]
        ids@.contains_key(a1) && ids@.contains_key(a2) && a1 != a2 implies ids@[a1] != ids@[a2] by {
        assert(inverse@[ids@[a1]] == a1);
        assert(inverse@[ids@[a2]] == a2);
    }
    assert(ids@.dom().finite());
    assert(slots@.dom().finite());
    assert(forall|t: usize| #[trigger]
        b.tombs.contains(t) ==> exists|a: i64| b.ids.contains_key(a) && #[trigger] b.ids[a] == t);
    assert(forall|x: usize| #[trigger]
        b.slots.contains_key(x) ==> b.ids.contains_key(b.slots[x]) && b.ids[b.slots[x]] == x);
    assert(forall|a: i64| #[trigger] b.ids.contains_key(a) ==> b.ids[a] < b.next);
    true
}

/// Assigning slots in turn keeps the bookkeeping consistent.
pub proof fn lemma_assign_all_wf(b: Book, ids: Seq<i64>)
    requires
        book_wf(b),
        b.next + ids.len() < usize::MAX,
    ensures
        book_wf(assign_all(b, ids)),
    decreases ids.len(),
{
    if ids.len() > 0 {
        lemma_assign_all_wf(b, ids.drop_last());
        lemma_assign_all_next(b, ids.drop_last());
        lemma_assign_wf(assign_all(b, ids.drop_last()), ids.last());
    }
}

/// Each assignment hands out the next slot.
pub proof fn lemma_assign_all_next(b: Book, ids: Seq<i64>)
    ensures
        assign_all(b, ids).next == b.next + ids.len(),
        assign_all(b, ids).dims == b.dims,
    decreases ids.len(),
{
    if ids.len() > 0 {
        lemma_assign_all_next(b, ids.drop_last());
    }
}

/// Tombstoning a live article keeps the bookkeeping consistent.
pub proof fn lemma_tombstone_wf(b: Book, a: i64)
    requires
        book_wf(b),
        live(b, a),
    ensures
        book_wf(tombstone(b, a)),
{
    let nb = tombstone(b, a);
    assert forall|t: usize| #[trigger] nb.tombs.contains(t) implies exists|x: i64|
        nb.ids.contains_key(x) && #[trigger] nb.ids[x] == t by {
        if t == b.ids[a] {
            assert(nb.ids.contains_key(a));
        } else {
            assert(b.tombs.contains(t));
            let x = choose|x: i64| b.ids.contains_key(x) && #[trigger] b.ids[x] == t;
            assert(nb.ids.contains_key(x) && nb.ids[x] == t);
        }
    }
}

/// `assign` keeps the bookkeeping consistent.
pub proof fn lemma_assign_wf(b: Book, a: i64)
    requires
        book_wf(b),
        b.next < usize::MAX,
    ensures
        book_wf(assign(b, a)),
{
    let nb = assign(b, a);
    let n = b.next as usize;
    assert forall|a1: i64, a2: i64|
        #![trigger nb.ids[a1], nb.ids[a2]]
        nb.ids.contains_key(a1) && nb.ids.contains_key(a2) && a1 != a2 implies nb.ids[a1]
        != nb.ids[a2] by {
        if a1 == a {
            assert(b.ids[a2] < b.next);
        } else if a2 == a {
            assert(b.ids[a1] < b.next);
        } else {
            assert(b.ids[a1] != b.ids[a2]);
        }
    }
    assert forall|s: usize| #[trigger]
        nb.slots.contains_key(s) implies nb.ids.contains_key(nb.slots[s]) && nb.ids[nb.slots[s]]
        == s by {
        if s != n {
            let owner = b.slots[s];
            assert(b.ids[owner] == s);
            if owner == a {
                assert(b.ids.contains_key(a) && s == b.ids[a]);
            }
        }
    }
    assert forall|t: usize| #[trigger] nb.tombs.contains(t) implies exists|x: i64|
        nb.ids.contains_key(x) && #[trigger] nb.ids[x] == t by {
        let x = choose|x: i64| b.ids.contains_key(x) && #[trigger] b.ids[x] == t;
        if x == a {
            assert(b.ids.contains_key(a) && t == b.ids[a]);
        }
        assert(nb.ids.contains_key(x) && nb.ids[x] == t);
    }
    assert(nb.ids.dom() =~= b.ids.dom().insert(a));
}

// ── Laws ────────────────────────────────────────────────────────────

/// A batch with no problem names only articles that were not live.
proof fn lemma_batch_error_none(b: Book, items: Seq<(i64, usize)>)
    requires
        batch_error(b, items) is None,
    ensures
        forall|k: int| 0 <= k < items.len() ==> !live(b, #[trigger] batch_ids(items)[k]),
    decreases items.len(),
{
    if items.len() > 0 {
        let rest = items.drop_first();
        lemma_batch_error_none(b, rest);
        assert forall|k: int| 0 <= k < items.len() implies !live(b, #[trigger] batch_ids(items)[k]) by {
            if k > 0 {
                assert(batch_ids(items)[k] == batch_ids(rest)[k - 1]);
            }
        }
    }
}

/// Every article a graph search resolves to is live.
proof fn lemma_resolved_live(b: Book, ns: Seq<usize>)
    requires
        book_wf(b),
    ensures
        forall|k: int| 0 <= k < resolved(b, ns).len() ==> live(b, #[trigger] resolved(b, ns)[k].1),
    decreases ns.len(),
{
    if ns.len() > 0 {
        lemma_resolved_live(b, ns.drop_last());
        let r = resolved(b, ns.drop_last());
        let d = ns.last();
        assert forall|k: int| 0 <= k < resolved(b, ns).len() implies live(
            b,
            #[trigger] resolved(b, ns)[k].1,
        ) by {
            if k < r.len() {
                assert(resolved(b, ns)[k] == r[k]);
            } else {
                assert(b.ids.contains_key(b.slots[d]) && b.ids[b.slots[d]] == d);
            }
        }
    }
}

/// Adding an article that is not in the index puts exactly that article in.
pub proof fn lemma_add_inserts(b: Book, a: i64)
    requires
        book_wf(b),
        b.next < usize::MAX,
        !live(b, a),
    ensures
        live(assign(b, a), a),
        live_ids(assign(b, a)) == live_ids(b).insert(a),
{
    let nb = assign(b, a);
    assert(!nb.tombs.contains(nb.ids[a])) by {
        if nb.tombs.contains(nb.ids[a]) {
            assert(b.tombs.contains(b.next as usize));
            let x = choose|x: i64| b.ids.contains_key(x) && #[trigger] b.ids[x] == b.next as usize;
        }
    }
    assert(live_ids(nb) =~= live_ids(b).insert(a)) by {
        assert forall|x: i64| live_ids(nb).contains(x) <==> live_ids(b).insert(a).contains(x) by {
            if x != a && b.ids.contains_key(x) && b.ids.contains_key(a) {
                assert(nb.ids[x] == b.ids[x]);
            }
        }
    }
}

/// With consistent bookkeeping, removing a live article takes exactly that
/// article out.
pub proof fn lemma_remove_deletes(b: Book, a: i64)
    requires
        book_wf(b),
        live(b, a),
    ensures
        !live(tombstone(b, a), a),
        live_ids(tombstone(b, a)) == live_ids(b).remove(a),
{
    let nb = tombstone(b, a);
    assert(live_ids(nb) =~= live_ids(b).remove(a)) by {
        assert forall|x: i64| live_ids(nb).contains(x) <==> live_ids(b).remove(a).contains(x) by {
            if x != a && b.ids.contains_key(x) {
                assert(b.ids[x] != b.ids[a]);
            }
        }
    }
}

/// Removing an article and adding it again leaves the same articles in the
/// index, under a fresh slot.
pub proof fn lemma_remove_then_add(b: Book, a: i64)
    requires
        book_wf(b),
        b.next < usize::MAX,
        live(b, a),
    ensures
        live_ids(assign(tombstone(b, a), a)) == live_ids(b),
        assign(tombstone(b, a), a).ids[a] == b.next,
{
    lemma_remove_deletes(b, a);
    lemma_tombstone_wf(b, a);
    lemma_add_inserts(tombstone(b, a), a);
    assert(live_ids(b).remove(a).insert(a) =~= live_ids(b));
}

/// Compacting never takes a live article out of the index.
pub proof fn lemma_rebuild_keeps_live(b: Book, a: i64)
    requires
        live(b, a),
    ensures
        live(rebuilt(b), a),
{
}

/// Compacting keeps exactly the articles that were in the index: no live
/// article is dropped and no removed article comes back.
pub proof fn lemma_rebuild_keeps_live_set(b: Book)
    ensures
        live_ids(rebuilt(b)) == live_ids(b),
{
    assert(live_ids(rebuilt(b)) =~= live_ids(b));
}

/// Compacting drops as many articles as slots that hold data, so the two
/// slot maps keep the same size and what is saved afterwards can be read
/// back.
pub proof fn lemma_rebuild_keeps_sizes(b: Book)
    requires
        book_wf(b),
        b.ids.len() == b.slots.len(),
    ensures
        rebuilt(b).ids.len() == rebuilt(b).slots.len(),
{
    lemma_live_count(b);
    assert(rebuilt(b).ids.dom() =~= live_ids(b));
    assert(b.tombs.subset_of(b.slots.dom())) by {
        assert forall|t: usize| b.tombs.contains(t) implies b.slots.dom().contains(t) by {
            let a = choose|a: i64| b.ids.contains_key(a) && #[trigger] b.ids[a] == t;
            lemma_slots_cover_ids(b, a);
        }
    }
    assert(rebuilt(b).slots.dom() =~= b.slots.dom().difference(b.tombs));
    lemma_set_difference_len(b.slots.dom(), b.tombs);
    assert(b.slots.dom().intersect(b.tombs) =~= b.tombs);
}

/// Compacting keeps the bookkeeping consistent.
pub proof fn lemma_rebuilt_wf(b: Book)
    requires
        book_wf(b),
    ensures
        book_wf(rebuilt(b)),
{
    let nb = rebuilt(b);
    assert(nb.ids.dom() =~= b.ids.dom().intersect(live_ids(b)));
    assert(nb.slots.dom() =~= b.slots.dom().difference(b.tombs));
    assert forall|s: usize| #[trigger]
        nb.slots.contains_key(s) implies nb.ids.contains_key(nb.slots[s]) && nb.ids[nb.slots[s]]
        == s by {
        assert(b.ids.contains_key(b.slots[s]) && b.ids[b.slots[s]] == s);
        assert(live_ids(b).contains(b.slots[s]));
    }
    assert forall|a1: i64, a2: i64|
        #![trigger nb.ids[a1], nb.ids[a2]]
        nb.ids.contains_key(a1) && nb.ids.contains_key(a2) && a1 != a2 implies nb.ids[a1]
        != nb.ids[a2] by {
        assert(b.ids[a1] != b.ids[a2]);
    }
    assert forall|a: i64| #[trigger] nb.ids.contains_key(a) implies nb.ids[a] < nb.next by {
        assert(b.ids.contains_key(a));
    }
}

/// A batch with no problem puts every article of the batch in and keeps
/// the ones already there.
pub proof fn lemma_batch_inserts(b: Book, ids: Seq<i64>)
    requires
        book_wf(b),
        b.next + ids.len() < usize::MAX,
        forall|k: int| 0 <= k < ids.len() ==> !live(b, #[trigger] ids[k]),
    ensures
        live_ids(assign_all(b, ids)) == live_ids(b) + ids.to_set(),
    decreases ids.len(),
{
    if ids.len() == 0 {
        assert(ids.to_set() =~= Set::<i64>::empty());
        assert(live_ids(b) + ids.to_set() =~= live_ids(b));
    } else {
        let prev = ids.drop_last();
        lemma_batch_inserts(b, prev);
        let pb = assign_all(b, prev);
        let a = ids.last();
        lemma_assign_all_wf(b, prev);
        lemma_assign_all_next(b, prev);
        if live(pb, a) {
            assert(live_ids(pb).contains(a));
            assert(live_ids(pb).insert(a) =~= live_ids(pb));
            lemma_assign_keeps(pb, a);
        } else {
            lemma_add_inserts(pb, a);
        }
        assert(ids =~= prev.push(a));
        prev.lemma_push_to_set_commute(a);
        assert(live_ids(assign_all(b, ids)) =~= live_ids(b) + ids.to_set());
    }
}

/// Assigning a fresh slot to a live article keeps it live and keeps the
/// other articles as they were.
proof fn lemma_assign_keeps(b: Book, a: i64)
    requires
        book_wf(b),
        b.next < usize::MAX,
        live(b, a),
    ensures
        live_ids(assign(b, a)) == live_ids(b),
{
    let nb = assign(b, a);
    assert(!nb.tombs.contains(nb.ids[a])) by {
        if nb.tombs.contains(nb.ids[a]) {
            assert(b.tombs.contains(b.next as usize));
            let x = choose|x: i64| b.ids.contains_key(x) && #[trigger] b.ids[x] == b.next as usize;
        }
    }
    assert(live_ids(nb) =~= live_ids(b));
}

/// With consistent bookkeeping, every slot that holds data names a
/// different article, so there are no more such slots than articles; when
/// the numbers are equal, every article's slot holds data.
proof fn lemma_slots_cover_ids(b: Book, a: i64)
    requires
        book_wf(b),
        b.ids.dom().len() == b.slots.dom().len(),
        b.ids.contains_key(a),
    ensures
        b.slots.contains_key(b.ids[a]),
{
    if !b.slots.contains_key(b.ids[a]) {
        let f = |s: usize| b.slots[s];
        let image = b.slots.dom().map(f);
        assert(injective_on(f, b.slots.dom())) by {
            assert forall|s1: usize, s2: usize|
                b.slots.dom().contains(s1) && b.slots.dom().contains(s2) && #[trigger] f(s1)
                    == #[trigger] f(s2) implies s1 == s2 by {
                assert(b.ids[b.slots[s1]] == s1);
                assert(b.ids[b.slots[s2]] == s2);
            }
        }
        lemma_map_size(b.slots.dom(), image, f);
        let rest = b.ids.dom().remove(a);
        assert(image.subset_of(rest)) by {
            assert forall|x: i64| image.contains(x) implies rest.contains(x) by {
                let s = choose|s: usize| b.slots.dom().contains(s) && f(s) == x;
                assert(b.ids.contains_key(b.slots[s]) && b.ids[b.slots[s]] == s);
                if x == a {
                    assert(b.ids[a] == s);
                }
            }
        }
        vstd::set_lib::lemma_len_subset(image, rest);
        assert(rest.len() == b.ids.dom().len() - 1);
    }
}

/// Adding an article keeps the two slot maps the same size: a new article
/// adds an entry to each; an article added again moves its entry from its
/// old slot (which held data) to the new one.
pub proof fn lemma_assign_keeps_sizes(b: Book, a: i64)
    requires
        book_wf(b),
        b.ids.dom().len() == b.slots.dom().len(),
        b.next < usize::MAX,
    ensures
        assign(b, a).ids.dom().len() == assign(b, a).slots.dom().len(),
        tombstone(b, a).ids.dom().len() == tombstone(b, a).slots.dom().len(),
{
    let n = b.next as usize;
    assert(!b.slots.contains_key(n)) by {
        if b.slots.contains_key(n) {
            assert(b.ids[b.slots[n]] == n);
        }
    }
    if b.ids.contains_key(a) {
        lemma_slots_cover_ids(b, a);
        let old_slot = b.ids[a];
        assert(b.ids.insert(a, n).dom() =~= b.ids.dom());
        assert(b.slots.remove(old_slot).dom() =~= b.slots.dom().remove(old_slot));
        assert(b.slots.remove(old_slot).insert(n, a).dom() =~= b.slots.dom().remove(old_slot).insert(
            n,
        ));
    } else {
        assert(b.ids.insert(a, n).dom() =~= b.ids.dom().insert(a));
        assert(b.slots.insert(n, a).dom() =~= b.slots.dom().insert(n));
    }
}

/// What is saved can be read back: the bookkeeping of an index whose two
/// slot maps have the same size is restorable for its own embedding length,
/// and restoring it gives the same bookkeeping.
pub proof fn lemma_save_restore_roundtrip(b: Book)
    requires
        book_wf(b),
        b.ids.len() == b.slots.len(),
        b.dims <= usize::MAX,
    ensures
        restorable(b.dims as usize, b),
{
}

} // verus!
