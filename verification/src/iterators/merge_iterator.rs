use crate::iterators::heap::{
    before, heads_of, heap_pop, heap_push, heap_replace_first, lemma_root_first, link_ok, members_ok,
    ordered, parent, precedes,
};
use crate::iterators::lanes::{
    entry_before, is_front, lane_before, lanes_sorted, lemma_before_total, lemma_before_transitive,
    lemma_merged_increasing, lemma_merged_of_empty, lemma_merged_step, lemma_total_lt, live, merged,
    step_past, total,
};
use crate::iterators::StorageIterator;
use crate::keys::{compare_keys, key_lt, keys_increasing, lemma_key_lt_irreflexive, Entry, KeyOrder};
use vstd::prelude::*;

verus! {

/// Merge multiple iterators of the same type. If the same key occurs multiple times in some
/// iterators, prefer the one with smaller index.
pub struct MergeIterator<I: StorageIterator> {
    /// The sources, each at the place of its priority index.
    iters: Vec<Box<I>>,
    /// The indices of the pending sources: a heap whose first source is before all others.
    heap: Vec<usize>,
    /// The index of the source that holds the current entry.
    current: Option<usize>,
}

/// Source `c` is before every source of the heap.
pub open spec fn leads(heads: Seq<Seq<u8>>, heap: Seq<usize>, c: usize) -> bool {
    forall|p: int| 0 <= p < heap.len() ==> before(heads, c, #[trigger] heap[p])
}

/// What one call of `next` may do to a lane while `key` surfaces: leave it,
/// move it past `key`, or take it out of play.
pub open spec fn lane_moved(was: Seq<Entry>, now: Seq<Entry>, key: Seq<u8>) -> bool {
    now == was || (was.len() > 0 && was[0].0 == key && now == was.skip(1)) || now.len() == 0
}

/// A source that changed state outside the heap leaves the heap as it was.
proof fn lemma_frame<I: StorageIterator>(was: Seq<Box<I>>, now: Seq<Box<I>>, heap: Seq<usize>, i: usize)
    requires
        now.len() == was.len(),
        forall|j: int| 0 <= j < was.len() && j != i ==> now[j] == was[j],
        !heap.contains(i),
        members_ok(was, heap),
    ensures
        members_ok(now, heap),
        ordered(heads_of(was), heap) ==> ordered(heads_of(now), heap),
        forall|c: usize| c < was.len() && c != i && leads(heads_of(was), heap, c) ==> leads(heads_of(now), heap, c),
{
    assert forall|p: int| 0 <= p < heap.len() implies (#[trigger] heap[p]) != i && heap[p] < now.len()
        && now[heap[p] as int] == was[heap[p] as int] by {
        assert(heap.contains(heap[p]));
    }
    if ordered(heads_of(was), heap) {
        assert forall|p: int| 1 <= p < heap.len() implies #[trigger] link_ok(
            heads_of(now),
            heap,
            p,
        ) by {
            assert(link_ok(heads_of(was), heap, p));
            let q = parent(p);
            assert(heap[q] != i);
            assert(heap[p] != i);
        }
    }
    assert forall|c: usize| c < was.len() && c != i && leads(heads_of(was), heap, c) implies leads(
        heads_of(now),
        heap,
        c,
    ) by {
        assert forall|p: int| 0 <= p < heap.len() implies before(heads_of(now), c, #[trigger] heap[p]) by {
            assert(before(heads_of(was), c, heap[p]));
        }
    }
}

/// The source that was first in the heap is before all that are left in it.
proof fn lemma_leads_after_pop(heads: Seq<Seq<u8>>, was: Seq<usize>, now: Seq<usize>, first: usize)
    requires
        forall|y: usize| now.contains(y) ==> was.contains(y) && y != first,
        forall|p: int| 0 <= p < was.len() ==> !before(heads, #[trigger] was[p], first),
    ensures
        leads(heads, now, first),
{
    assert forall|p: int| 0 <= p < now.len() implies before(heads, first, #[trigger] now[p]) by {
        let y = now[p];
        assert(now.contains(y));
        assert(was.contains(y) && y != first);
        let q = choose|q: int| 0 <= q < was.len() && was[q] == y;
        assert(!before(heads, was[q], first));
        lemma_before_total(heads[first as int], first as int, heads[y as int], y as int);
    }
}

/// What was before all of the heap is before all that is left of it.
proof fn lemma_leads_kept(heads: Seq<Seq<u8>>, was: Seq<usize>, now: Seq<usize>, c: usize)
    requires
        leads(heads, was, c),
        forall|y: usize| now.contains(y) ==> was.contains(y),
    ensures
        leads(heads, now, c),
{
    assert forall|p: int| 0 <= p < now.len() implies before(heads, c, #[trigger] now[p]) by {
        let y = now[p];
        assert(now.contains(y));
        assert(was.contains(y));
        let q = choose|q: int| 0 <= q < was.len() && was[q] == y;
        assert(before(heads, c, was[q]));
    }
}

impl<I: StorageIterator> MergeIterator<I> {
    /// The number of sources the iterator was made of.
    pub open spec fn width(&self) -> nat {
        self.sources().len()
    }

    /// The sources, by priority index, each in the state it is in.
    pub closed spec fn sources(&self) -> Seq<Box<I>> {
        self.iters@
    }

    /// The index of the source that holds the current entry.
    pub closed spec fn current_index(&self) -> Option<int> {
        match self.current {
            Some(c) => Some(c as int),
            None => None,
        }
    }

    /// Source `i` is in play: it holds the current entry or is pending.
    pub closed spec fn in_play(&self, i: int) -> bool {
        0 <= i < self.iters@.len() && (self.current == Some(i as usize) || self.heap@.contains(
            i as usize,
        ))
    }

    /// What source `i` has still to give to the merge: nothing once it has run
    /// out or has been taken out of play.
    pub closed spec fn lane(&self, i: int) -> Seq<Entry> {
        if self.in_play(i) {
            self.iters@[i].remaining()
        } else {
            Seq::empty()
        }
    }

    /// What the sources have still to give, by priority index.
    pub open spec fn lanes(&self) -> Seq<Seq<Entry>> {
        Seq::new(self.width(), |i: int| self.lane(i))
    }

    /// The pending sources are readable, have an entry each and stand in heap
    /// order; the current source is readable and before all of them, and where
    /// it has run out no source is pending.
    pub closed spec fn wf(&self) -> bool {
        &&& self.iters@.len() <= usize::MAX
        &&& members_ok(self.iters@, self.heap@)
        &&& self.heap@.no_duplicates()
        &&& ordered(heads_of(self.iters@), self.heap@)
        &&& match self.current {
            Some(c) => {
                &&& c < self.iters@.len()
                &&& self.iters@[c as int].inv()
                &&& !self.heap@.contains(c)
                &&& self.iters@[c as int].remaining().len() > 0 ==> leads(
                    heads_of(self.iters@),
                    self.heap@,
                    c,
                )
                &&& self.iters@[c as int].remaining().len() == 0 ==> self.heap@.len() == 0
            },
            None => true,
        }
    }

    /// Every source in play gives its keys in increasing order.
    proof fn lemma_lanes_sorted(&self)
        requires
            self.wf(),
        ensures
            lanes_sorted(self.lanes()),
    {
        assert forall|i: int| 0 <= i < self.lanes().len() implies keys_increasing(#[trigger] self.lanes()[i]) by {
            if self.in_play(i) {
                if self.current != Some(i as usize) {
                    let p = choose|p: int| 0 <= p < self.heap@.len() && self.heap@[p] == i as usize;
                    assert(self.iters@[self.heap@[p] as int].inv());
                }
                self.iters@[i].lemma_increasing();
            }
        }
    }

    /// A current source that has an entry is the front lane.
    proof fn lemma_current_front(&self, c: usize)
        requires
            self.wf(),
            self.current == Some(c),
            self.iters@[c as int].remaining().len() > 0,
        ensures
            is_front(self.lanes(), c as int),
            self.lanes()[c as int] == self.iters@[c as int].remaining(),
    {
        let lanes = self.lanes();
        assert(live(lanes, c as int));
        assert forall|j: int| #[trigger] live(lanes, j) && j != c implies lane_before(
            lanes,
            c as int,
            j,
        ) by {
            assert(self.in_play(j));
            let p = choose|p: int| 0 <= p < self.heap@.len() && self.heap@[p] == j as usize;
            assert(before(heads_of(self.iters@), c, self.heap@[p]));
        }
    }

    /// Without a current source that has an entry, no lane has one.
    proof fn lemma_spent(&self)
        requires
            self.wf(),
            match self.current {
                Some(c) => self.iters@[c as int].remaining().len() == 0,
                None => self.heap@.len() == 0,
            },
        ensures
            merged(self.lanes()) == Seq::<Entry>::empty(),
    {
        let lanes = self.lanes();
        assert forall|i: int| 0 <= i < lanes.len() implies lanes[i].len() == 0 by {
            if self.in_play(i) && self.current != Some(i as usize) {
                let p = choose|p: int| 0 <= p < self.heap@.len() && self.heap@[p] == i as usize;
            }
        }
        lemma_merged_of_empty(lanes);
    }

    /// Makes a merge of the given sources; the place of a source in `iters`
    /// is its priority index.
    pub fn create(iters: Vec<Box<I>>) -> (it: Self)
        requires
            forall|i: int| 0 <= i < iters.len() ==> (#[trigger] iters[i]).inv(),
        ensures
            it.wf(),
            it.width() == iters.len(),
            it.lanes() == Seq::new(iters.len() as nat, |i: int| iters[i].remaining()),
            it.remaining() == merged(it.lanes()),
            (forall|i: int| 0 <= i < iters.len() ==> (#[trigger] iters[i]).remaining().len() == 0)
                ==> it.remaining().len() == 0,
            (forall|i: int| 0 <= i < iters.len() ==> (#[trigger] iters[i]).reliable()) ==> it.reliable(),
    {
        let mut heap: Vec<usize> = Vec::new();
        if iters.is_empty() {
            let it = Self { iters, heap, current: None };
            proof {
                it.lemma_spent();
                assert(it.lanes() =~= Seq::new(iters.len() as nat, |i: int| iters[i].remaining()));
            }
            return it;
        }
        let n = iters.len();
        let mut i: usize = 0;
        while i < n
            invariant
                n == iters.len(),
                i <= n,
                forall|j: int| 0 <= j < iters.len() ==> (#[trigger] iters[j]).inv(),
                members_ok(iters@, heap@),
                heap@.no_duplicates(),
                ordered(heads_of(iters@), heap@),
                forall|x: usize| heap@.contains(x) <==> (x < i && iters[x as int].remaining().len() > 0),
            decreases n - i,
        {
            if iters[i].is_valid() {
                heap_push(&iters, &mut heap, i);
            }
            i += 1;
        }
        let ghost full = heap@;
        let current = if heap.len() > 0 {
            let c = heap_pop(&iters, &mut heap);
            proof {
                lemma_leads_after_pop(heads_of(iters@), full, heap@, c);
            }
            Some(c)
        } else {
            None
        };
        let it = Self { iters, heap, current };
        proof {
            assert forall|j: int| 0 <= j < iters.len() implies it.lane(j) == iters[j].remaining() by {
                if iters[j].remaining().len() > 0 {
                    assert(full.contains(j as usize));
                } else {
                    assert(it.lane(j) =~= iters[j].remaining());
                }
            }
            assert(it.lanes() =~= Seq::new(iters.len() as nat, |i: int| iters[i].remaining()));
            if current is None {
                it.lemma_spent();
            }
            if forall|i: int| 0 <= i < iters.len() ==> (#[trigger] iters[i]).remaining().len() == 0 {
                lemma_merged_of_empty(it.lanes());
            }
        }
        it
    }

    /// While the merge has an entry to give, the current source is the front
    /// lane, so the current entry is its head: the smallest key of all
    /// sources in play, from the source of lowest index among those that
    /// hold it. The sources in play are those that have an entry left.
    pub proof fn lemma_current_is_front(&self)
        requires
            self.wf(),
            self.remaining().len() > 0,
        ensures
            self.current_index() is Some,
            is_front(self.lanes(), self.current_index().unwrap()),
            self.remaining()[0] == self.lanes()[self.current_index().unwrap()][0],
            forall|j: int| 0 <= j < self.width() ==> (self.in_play(j) <==> (#[trigger] self.lane(j)).len() > 0),
    {
        let c = self.current.unwrap();
        if self.iters@[c as int].remaining().len() == 0 {
            self.lemma_spent();
        }
        self.lemma_current_front(c);
        lemma_merged_step(self.lanes(), c as int);
        assert forall|j: int| 0 <= j < self.width() && self.in_play(j) implies (#[trigger] self.lane(j)).len()
            > 0 by {
            if self.current != Some(j as usize) {
                let p = choose|p: int| 0 <= p < self.heap@.len() && self.heap@[p] == j as usize;
                assert(self.iters@[self.heap@[p] as int].remaining().len() > 0);
            }
        }
    }

    /// What holds of the merge after a call of `next` on `was` that the
    /// failure of a source has ended. The source that failed held the current
    /// key and is out of play. Where it was a pending source, the current
    /// source has not moved: the merge gives the same entry as before. Where
    /// it was the current source, the merge has no current source, and every
    /// other lane has moved past the current key. No lane has done anything
    /// but stay, move past the current key, or go out of play.
    pub open spec fn stopped_from(&self, was: Self) -> bool {
        let key = was.remaining()[0].0;
        let c = was.current_index().unwrap();
        &&& (self.current_index() == was.current_index() || self.current_index() is None)
        &&& self.current_index() == was.current_index() ==> {
            &&& self.lane(c) == was.lane(c)
            &&& self.remaining().len() > 0
            &&& self.remaining()[0] == was.remaining()[0]
        }
        &&& self.current_index() is None ==> forall|j: int|
            0 <= j < was.width() && j != c ==> #[trigger] self.lane(j) == step_past(was.lanes(), key)[j]
        &&& forall|j: int| 0 <= j < was.width() ==> lane_moved(was.lane(j), #[trigger] self.lane(j), key)
        &&& exists|j: int|
            0 <= j < was.width() && was.in_play(j) && was.lane(j).len() > 0 && was.lane(j)[0].0 == key
                && !self.in_play(j) && (#[trigger] self.lane(j)).len() == 0
    }

    /// The step of the merge for a pending source that has been advanced.
    /// Source `i` is out of play and `outcome` is what its advance gave. It
    /// comes back into play, as a pending source, where it has an entry to
    /// give; a source that failed or has run out stays out of play, and
    /// nothing else changes. The outcome is handed on as it came.
    ///
    /// A source that comes back must have moved past the current key, so
    /// that the current entry still surfaces before its head.
    pub fn readmit(&mut self, i: usize, outcome: Result<(), anyhow::Error>) -> (r: Result<(), anyhow::Error>)
        requires
            old(self).wf(),
            i < old(self).sources().len(),
            !old(self).in_play(i as int),
            outcome is Ok ==> old(self).sources()[i as int].inv(),
            outcome is Ok && old(self).sources()[i as int].remaining().len() > 0 ==> match old(
                self,
            ).current_index() {
                Some(c) => old(self).lane(c).len() > 0 && entry_before(
                    old(self).lane(c)[0].0,
                    c,
                    old(self).sources()[i as int].remaining()[0].0,
                    i as int,
                ),
                None => true,
            },
        ensures
            r == outcome,
            final(self).wf(),
            final(self).sources() == old(self).sources(),
            final(self).current_index() == old(self).current_index(),
            old(self).reliable() && (outcome is Ok ==> old(self).sources()[i as int].reliable())
                ==> final(self).reliable(),
            forall|j: int|
                0 <= j < old(self).width() ==> #[trigger] final(self).in_play(j) == if j == i {
                    outcome is Ok && old(self).sources()[i as int].remaining().len() > 0
                } else {
                    old(self).in_play(j)
                },
            forall|j: int|
                0 <= j < old(self).width() ==> #[trigger] final(self).lane(j) == if j == i {
                    if outcome is Ok {
                        old(self).sources()[i as int].remaining()
                    } else {
                        Seq::empty()
                    }
                } else {
                    old(self).lane(j)
                },
    {
        if outcome.is_err() {
            return outcome;
        }
        if self.iters[i].is_valid() {
            heap_push(&self.iters, &mut self.heap, i);
            proof {
                let h = heads_of(self.iters@);
                match self.current {
                    Some(c) => {
                        assert forall|p: int| 0 <= p < self.heap@.len() implies before(
                            h,
                            c,
                            #[trigger] self.heap@[p],
                        ) by {
                            let y = self.heap@[p];
                            assert(self.heap@.contains(y));
                            if y != i {
                                assert(old(self).heap@.contains(y));
                                let q = choose|q: int|
                                    0 <= q < old(self).heap@.len() && old(self).heap@[q] == y;
                                assert(before(h, c, old(self).heap@[q]));
                            }
                        }
                    },
                    None => {},
                }
            }
        } else {
            assert(self.lane(i as int) =~= self.iters@[i as int].remaining());
        }
        outcome
    }

    /// The step of the merge for the current source once it has been
    /// advanced. The merge has no current source, `c` is out of play and
    /// `outcome` is what its advance gave. The current source becomes `c`
    /// where it still has an entry and is before all pending sources, else
    /// the first of the pending sources, if there is one. A source that
    /// failed stays out of play and leaves the merge without a current
    /// source. The outcome is handed on as it came.
    pub fn promote(&mut self, c: usize, outcome: Result<(), anyhow::Error>) -> (r: Result<(), anyhow::Error>)
        requires
            old(self).wf(),
            old(self).current_index() is None,
            c < old(self).sources().len(),
            !old(self).in_play(c as int),
            outcome is Ok ==> old(self).sources()[c as int].inv(),
        ensures
            r == outcome,
            final(self).wf(),
            final(self).sources() == old(self).sources(),
            outcome is Err ==> final(self).current_index() is None,
            outcome is Err ==> forall|j: int|
                0 <= j < old(self).width() ==> #[trigger] final(self).in_play(j) == old(self).in_play(j),
            outcome is Err ==> forall|j: int|
                0 <= j < old(self).width() ==> #[trigger] final(self).lane(j) == old(self).lane(j),
            outcome is Ok ==> final(self).current_index() is Some,
            outcome is Ok ==> forall|j: int|
                0 <= j < old(self).width() && #[trigger] final(self).in_play(j) ==> old(self).in_play(j) || j
                    == c,
            old(self).reliable() && (outcome is Ok ==> old(self).sources()[c as int].reliable())
                ==> final(self).reliable(),
            outcome is Ok ==> forall|j: int|
                0 <= j < old(self).width() ==> #[trigger] final(self).lane(j) == if j == c {
                    old(self).sources()[c as int].remaining()
                } else {
                    old(self).lane(j)
                },
    {
        let ghost h = heads_of(self.iters@);
        let ghost was = self.heap@;
        if outcome.is_err() {
            return outcome;
        }
        if !self.iters[c].is_valid() {
            if self.heap.len() > 0 {
                let f = heap_pop(&self.iters, &mut self.heap);
                self.current = Some(f);
                proof {
                    assert(was.contains(was[0]));
                    lemma_leads_after_pop(h, was, self.heap@, f);
                }
            } else {
                self.current = Some(c);
            }
            assert(self.lane(c as int) =~= self.iters@[c as int].remaining());
        } else if self.heap.len() > 0 && precedes(&self.iters, self.heap[0], c) {
            let f = heap_replace_first(&self.iters, &mut self.heap, c);
            self.current = Some(f);
            proof {
                assert(was.contains(was[0]));
                assert forall|p: int| 0 <= p < self.heap@.len() implies before(h, f, #[trigger] self.heap@[p]) by {
                    let y = self.heap@[p];
                    assert(self.heap@.contains(y));
                    if y != c {
                        assert(was.contains(y) && y != f);
                        let q = choose|q: int| 0 <= q < was.len() && was[q] == y;
                        assert(!before(h, was[q], f));
                        lemma_before_total(h[f as int], f as int, h[y as int], y as int);
                    }
                }
            }
        } else {
            self.current = Some(c);
            proof {
                assert forall|p: int| 0 <= p < self.heap@.len() implies before(h, c, #[trigger] self.heap@[p]) by {
                    let y = self.heap@[p];
                    let root = self.heap@[0];
                    assert(self.heap@.contains(y));
                    lemma_root_first(h, self.heap@, p);
                    lemma_before_total(h[c as int], c as int, h[y as int], y as int);
                    if before(h, y, c) {
                        lemma_before_total(h[root as int], root as int, h[y as int], y as int);
                        if before(h, root, y) {
                            lemma_before_transitive(
                                h[root as int],
                                root as int,
                                h[y as int],
                                y as int,
                                h[c as int],
                                c as int,
                            );
                        }
                    }
                }
            }
        }
        outcome
    }

    /// Moves to the entry that surfaces next: every pending source that holds
    /// the current key moves past it, then the current source does, and the
    /// source that is then before all others becomes the current one.
    ///
    /// The call succeeds where every source in play is reliable. A failure
    /// of a source ends the call and is handed on. The source that failed is
    /// out of play from then on. Where it was the current source, the merge
    /// is left without one and gives nothing more.
    pub fn next(&mut self) -> (r: Result<(), anyhow::Error>)
        requires
            old(self).wf(),
            old(self).remaining().len() > 0,
        ensures
            final(self).wf(),
            final(self).width() == old(self).width(),
            old(self).reliable() ==> r is Ok && final(self).reliable(),
            r is Ok ==> {
                &&& final(self).current_index() is Some
                &&& final(self).lanes() == step_past(old(self).lanes(), old(self).remaining()[0].0)
                &&& final(self).remaining() == old(self).remaining().skip(1)
            },
            r is Err ==> final(self).stopped_from(*old(self)),
            forall|j: int| #[trigger] final(self).in_play(j) ==> old(self).in_play(j),
    {
        let ghost l0 = self.lanes();
        let ghost n = self.iters@.len();
        proof {
            if self.current is Some && self.iters@[self.current.unwrap() as int].remaining().len() == 0 {
                self.lemma_spent();
            }
            self.lemma_lanes_sorted();
        }
        let c = self.current.unwrap();
        proof {
            self.lemma_current_front(c);
            lemma_merged_step(l0, c as int);
        }
        let ghost k = l0[c as int][0].0;
        let ghost cur = self.iters@[c as int];
        let mut more = true;
        while more
            invariant
                self.wf(),
                old(self).reliable() ==> self.reliable(),
                self.iters@.len() == n,
                n == old(self).iters@.len(),
                l0 == old(self).lanes(),
                old(self).current == Some(c),
                old(self).wf(),
                old(self).remaining().len() > 0,
                old(self).remaining()[0] == cur.remaining()[0],
                forall|j: int| #[trigger] self.in_play(j) ==> old(self).in_play(j),
                k == old(self).remaining()[0].0,
                l0.len() == n,
                lanes_sorted(l0),
                self.current == Some(c),
                c < n,
                self.iters@[c as int] == cur,
                cur.remaining().len() > 0,
                cur.remaining()[0].0 == k,
                l0[c as int] == cur.remaining(),
                forall|j: int|
                    0 <= j < n ==> (#[trigger] self.lane(j) == l0[j] || (l0[j].len() > 0 && l0[j][0].0 == k
                        && j != c && self.lane(j) == l0[j].skip(1))),
                !more ==> forall|p: int|
                    0 <= p < self.heap@.len() ==> heads_of(self.iters@)[#[trigger] self.heap@[p] as int] != k,
            decreases total(self.lanes()), if more { 1int } else { 0int },
        {
            if self.heap.len() == 0 {
                more = false;
            } else {
                let i = self.heap[0];
                let ghost h = heads_of(self.iters@);
                let ghost at_head = *self;
                assert(self.heap@.contains(i));
                match compare_keys(self.iters[i].key(), self.iters[c].key()) {
                    KeyOrder::Equal => {
                        let ghost source = self.iters@[i as int];
                        let ghost rest = source.remaining();
                        proof {
                            source.lemma_increasing();
                            assert(self.lane(i as int) == rest);
                            if rest != l0[i as int] {
                                let whole = l0[i as int];
                                assert(keys_increasing(whole));
                                assert(key_lt(whole[0].0, whole[1].0));
                                assert(rest[0] == whole[1]);
                                lemma_key_lt_irreflexive(k);
                            }
                        }
                        let ghost full = self.heap@;
                        heap_pop(&self.iters, &mut self.heap);
                        proof {
                            lemma_leads_kept(h, full, self.heap@, c);
                        }
                        let ghost popped = *self;
                        let outcome = self.iters[i].next();
                        proof {
                            lemma_frame(popped.iters@, self.iters@, self.heap@, i);
                            if outcome is Ok && self.iters@[i as int].remaining().len() > 0 {
                                assert(self.iters@[i as int].remaining()[0] == rest[1]);
                                assert(key_lt(rest[0].0, rest[1].0));
                            }
                            assert forall|j: int| 0 <= j < n && j != i implies #[trigger] self.lane(j)
                                == at_head.lane(j) by {
                                if at_head.heap@.contains(j as usize) {
                                    assert(self.heap@.contains(j as usize));
                                }
                            }
                            assert(self.lane(i as int) =~= Seq::<Entry>::empty());
                        }
                        let r = self.readmit(i, outcome);
                        match r {
                            Ok(()) => {
                                proof {
                                    assert(at_head.in_play(i as int));
                                    assert forall|j: int| #[trigger] self.in_play(j) implies old(
                                        self,
                                    ).in_play(j) by {
                                        assert(at_head.in_play(j));
                                    }
                                    assert(self.lane(i as int) == rest.skip(1));
                                    assert forall|j: int| 0 <= j < n implies (#[trigger] self.lanes()[j]).len()
                                        <= at_head.lanes()[j].len() by {
                                        assert(self.lane(j) == if j == i {
                                            rest.skip(1)
                                        } else {
                                            at_head.lane(j)
                                        });
                                    }
                                    lemma_total_lt(self.lanes(), at_head.lanes(), i as int);
                                }
                            },
                            Err(_) => {
                                proof {
                                    assert(self.lane(i as int).len() == 0);
                                    assert(l0[i as int].len() > 0 && l0[i as int][0].0 == k);
                                    assert(old(self).lane(i as int) == l0[i as int]);
                                    assert(at_head.in_play(i as int));
                                    assert(!self.in_play(i as int));
                                    assert(self.lane(c as int) == cur.remaining());
                                    assert(old(self).lane(c as int) == l0[c as int]);
                                    self.lemma_current_front(c);
                                    lemma_merged_step(self.lanes(), c as int);
                                    assert forall|j: int| #[trigger] self.in_play(j) implies old(
                                        self,
                                    ).in_play(j) by {
                                        assert(at_head.in_play(j));
                                    }
                                    assert forall|j: int| 0 <= j < n implies lane_moved(
                                        old(self).lane(j),
                                        #[trigger] self.lane(j),
                                        k,
                                    ) by {
                                        assert(old(self).lane(j) == l0[j]);
                                        if j != i {
                                            assert(self.lane(j) == at_head.lane(j));
                                        }
                                    }
                                }
                                assert(self.stopped_from(*old(self)));
                                return r;
                            },
                        }
                    },
                    _ => {
                        proof {
                            lemma_key_lt_irreflexive(k);
                            assert(h[i as int] != k);
                            assert forall|p: int| 0 <= p < self.heap@.len() implies h[#[trigger] self.heap@[p] as int]
                                != k by {
                                let y = self.heap@[p];
                                lemma_root_first(h, self.heap@, p);
                                assert(before(h, c, i));
                                assert(before(h, c, y));
                                if h[y as int] == k {
                                    lemma_key_lt_irreflexive(k);
                                    assert(key_lt(k, h[i as int]));
                                    assert(before(h, y, i));
                                }
                            }
                        }
                        more = false;
                    },
                }
            }
        }
        let ghost settled = *self;
        self.current = None;
        let outcome = self.iters[c].next();
        proof {
            lemma_frame(settled.iters@, self.iters@, self.heap@, c);
            assert forall|j: int| 0 <= j < n && j != c implies #[trigger] self.lane(j) == settled.lane(j) by {}
        }
        let ghost detached = *self;
        let r = self.promote(c, outcome);
        proof {
            let want = step_past(l0, k);
            assert(settled.in_play(c as int));
            assert forall|j: int| #[trigger] self.in_play(j) implies old(self).in_play(j) by {
                if j != c {
                    assert(detached.in_play(j));
                    assert(settled.in_play(j));
                }
            }
            assert forall|j: int| 0 <= j < n && j != c implies #[trigger] self.lane(j) == want[j] by {
                assert(self.lane(j) == detached.lane(j));
                assert(detached.lane(j) == settled.lane(j));
                if settled.lane(j) == l0[j] && l0[j].len() > 0 && l0[j][0].0 == k {
                    assert(settled.in_play(j));
                    let p = choose|p: int| 0 <= p < settled.heap@.len() && settled.heap@[p] == j as usize;
                    assert(heads_of(settled.iters@)[settled.heap@[p] as int] != k);
                }
            }
            if r is Ok {
                assert(self.lane(c as int) == want[c as int]);
                assert(self.lanes() =~= want);
            } else {
                assert(!detached.in_play(c as int));
                assert(!self.in_play(c as int));
                assert(self.lane(c as int) =~= Seq::<Entry>::empty());
                assert(old(self).lane(c as int) == l0[c as int]);
                assert forall|j: int| 0 <= j < n implies lane_moved(
                    old(self).lane(j),
                    #[trigger] self.lane(j),
                    k,
                ) by {
                    assert(old(self).lane(j) == l0[j]);
                }
                assert(self.stopped_from(*old(self)));
            }
        }
        r
    }
}

impl<I: StorageIterator> StorageIterator for MergeIterator<I> {
    open spec fn inv(&self) -> bool {
        self.wf()
    }

    /// The merge of what the sources in play have still to give; nothing
    /// where the merge has no current source.
    open spec fn remaining(&self) -> Seq<Entry> {
        if self.current_index() is Some {
            merged(self.lanes())
        } else {
            Seq::empty()
        }
    }

    /// A merge is reliable where every source in play is.
    closed spec fn reliable(&self) -> bool {
        forall|j: int| 0 <= j < self.iters@.len() && self.in_play(j) ==> (#[trigger] self.iters@[j]).reliable()
    }

    proof fn lemma_increasing(&self) {
        self.lemma_lanes_sorted();
        lemma_merged_increasing(self.lanes());
    }

    fn value(&self) -> (v: &[u8]) {
        proof {
            self.lemma_current_is_front();
        }
        self.iters[self.current.unwrap()].value()
    }

    fn key(&self) -> (k: &[u8]) {
        proof {
            self.lemma_current_is_front();
        }
        self.iters[self.current.unwrap()].key()
    }

    fn is_valid(&self) -> (b: bool) {
        match self.current {
            Some(c) => {
                let b = self.iters[c].is_valid();
                proof {
                    if b {
                        self.lemma_current_front(c);
                        lemma_merged_step(self.lanes(), c as int);
                    } else {
                        self.lemma_spent();
                    }
                }
                b
            },
            None => false,
        }
    }

    fn next(&mut self) -> (r: Result<(), anyhow::Error>)
        ensures
            final(self).wf(),
            final(self).width() == old(self).width(),
            r is Ok ==> {
                &&& final(self).current_index() is Some
                &&& final(self).lanes() == step_past(old(self).lanes(), old(self).remaining()[0].0)
            },
            r is Err ==> final(self).stopped_from(*old(self)),
            forall|j: int| #[trigger] final(self).in_play(j) ==> old(self).in_play(j),
    {
        MergeIterator::next(self)
    }
}

} // verus!
