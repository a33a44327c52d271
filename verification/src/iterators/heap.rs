use crate::iterators::lanes::{
    entry_before, lemma_before_asymmetric, lemma_before_transitive, lemma_not_after_transitive,
};
use crate::iterators::StorageIterator;
use crate::keys::{compare_keys, KeyOrder};
use vstd::prelude::*;

verus! {

/// The key at the head of each source. What it says of a source that has run
/// out is of no use.
pub open spec fn heads_of<I: StorageIterator>(iters: Seq<Box<I>>) -> Seq<Seq<u8>> {
    Seq::new(iters.len(), |i: int| iters[i].remaining()[0].0)
}

/// Source `a` surfaces before source `b`.
pub open spec fn before(heads: Seq<Seq<u8>>, a: usize, b: usize) -> bool {
    entry_before(heads[a as int], a as int, heads[b as int], b as int)
}

/// The place above `p` in the heap.
pub open spec fn parent(p: int) -> int {
    (p - 1) / 2
}

/// What stands at `p` is not before what stands above it.
pub open spec fn link_ok(heads: Seq<Seq<u8>>, heap: Seq<usize>, p: int) -> bool {
    !before(heads, heap[p], heap[parent(p)])
}

/// What stands at `q` is not before what stands two places above it.
pub open spec fn grand_ok(heads: Seq<Seq<u8>>, heap: Seq<usize>, q: int) -> bool {
    !before(heads, heap[q], heap[parent(parent(q))])
}

/// The heap order: no source is before the one above it, so the first one is
/// before all others.
pub open spec fn ordered(heads: Seq<Seq<u8>>, heap: Seq<usize>) -> bool {
    forall|p: int| 1 <= p < heap.len() ==> #[trigger] link_ok(heads, heap, p)
}

/// Every index in the heap names a source that can be read and has an entry.
pub open spec fn members_ok<I: StorageIterator>(iters: Seq<Box<I>>, heap: Seq<usize>) -> bool {
    forall|p: int|
        0 <= p < heap.len() ==> {
            &&& (#[trigger] heap[p]) < iters.len()
            &&& iters[heap[p] as int].inv()
            &&& iters[heap[p] as int].remaining().len() > 0
        }
}

/// The same indices, two of them having changed places.
pub open spec fn swapped(s: Seq<usize>, i: int, j: int) -> Seq<usize> {
    s.update(i, s[j]).update(j, s[i])
}

/// Two indices that change places leave the same indices, each as often as before.
pub proof fn lemma_swapped(s: Seq<usize>, i: int, j: int)
    requires
        0 <= i < s.len(),
        0 <= j < s.len(),
    ensures
        swapped(s, i, j).len() == s.len(),
        forall|x: usize| swapped(s, i, j).contains(x) <==> s.contains(x),
        s.no_duplicates() ==> swapped(s, i, j).no_duplicates(),
{
    let t = swapped(s, i, j);
    assert forall|x: usize| t.contains(x) <==> s.contains(x) by {
        if t.contains(x) {
            let k = choose|k: int| 0 <= k < t.len() && t[k] == x;
            let k2 = if k == i {
                j
            } else if k == j {
                i
            } else {
                k
            };
            assert(s[k2] == x);
        }
        if s.contains(x) {
            let k = choose|k: int| 0 <= k < s.len() && s[k] == x;
            let k2 = if k == i {
                j
            } else if k == j {
                i
            } else {
                k
            };
            assert(t[k2] == x);
        }
    }
}

/// In an ordered heap nothing is before the first source.
pub proof fn lemma_root_first(heads: Seq<Seq<u8>>, heap: Seq<usize>, p: int)
    requires
        ordered(heads, heap),
        0 <= p < heap.len(),
    ensures
        !before(heads, heap[p], heap[0]),
    decreases p,
{
    let root = heap[0];
    if p == 0 {
        lemma_before_asymmetric(heads[root as int], root as int, heads[root as int], root as int);
    } else {
        let q = parent(p);
        lemma_root_first(heads, heap, q);
        assert(link_ok(heads, heap, p));
        lemma_not_after_transitive(
            heads[root as int],
            root as int,
            heads[heap[q] as int],
            heap[q] as int,
            heads[heap[p] as int],
            heap[p] as int,
        );
    }
}

/// Whether source `a` surfaces before source `b`: by key, the lower index
/// first where the keys are equal.
pub(crate) fn precedes<I: StorageIterator>(iters: &Vec<Box<I>>, a: usize, b: usize) -> (r: bool)
    requires
        a < iters.len(),
        b < iters.len(),
        iters[a as int].inv(),
        iters[a as int].remaining().len() > 0,
        iters[b as int].inv(),
        iters[b as int].remaining().len() > 0,
    ensures
        r == before(heads_of(iters@), a, b),
{
    match compare_keys(iters[a].key(), iters[b].key()) {
        KeyOrder::Less => true,
        KeyOrder::Greater => false,
        KeyOrder::Equal => a < b,
    }
}

/// Lets the indices at `i` and `j` change places.
fn swap_entries(heap: &mut Vec<usize>, i: usize, j: usize)
    requires
        i < old(heap).len(),
        j < old(heap).len(),
    ensures
        final(heap)@ == swapped(old(heap)@, i as int, j as int),
{
    let a = heap[i];
    let b = heap[j];
    heap[i] = b;
    heap[j] = a;
}

/// Moves the source at `start` up until the one above it is not after it.
fn sift_up<I: StorageIterator>(iters: &Vec<Box<I>>, heap: &mut Vec<usize>, start: usize)
    requires
        members_ok(iters@, old(heap)@),
        start < old(heap).len(),
        forall|p: int|
            1 <= p < old(heap).len() && p != start ==> #[trigger] link_ok(
                heads_of(iters@),
                old(heap)@,
                p,
            ),
        forall|q: int|
            1 <= q < old(heap).len() && parent(q) == start && start >= 1 ==> #[trigger] grand_ok(
                heads_of(iters@),
                old(heap)@,
                q,
            ),
    ensures
        ordered(heads_of(iters@), final(heap)@),
        members_ok(iters@, final(heap)@),
        final(heap).len() == old(heap).len(),
        forall|x: usize| final(heap)@.contains(x) <==> old(heap)@.contains(x),
        old(heap)@.no_duplicates() ==> final(heap)@.no_duplicates(),
{
    let ghost h = heads_of(iters@);
    let mut pos = start;
    while pos > 0 && precedes(iters, heap[pos], heap[(pos - 1) / 2])
        invariant
            h == heads_of(iters@),
            pos < heap.len(),
            heap.len() == old(heap).len(),
            members_ok(iters@, heap@),
            forall|x: usize| heap@.contains(x) <==> old(heap)@.contains(x),
            old(heap)@.no_duplicates() ==> heap@.no_duplicates(),
            forall|p: int| 1 <= p < heap.len() && p != pos ==> #[trigger] link_ok(h, heap@, p),
            forall|q: int|
                1 <= q < heap.len() && parent(q) == pos && pos >= 1 ==> #[trigger] grand_ok(h, heap@, q),
        decreases pos,
    {
        let par = (pos - 1) / 2;
        let ghost was = heap@;
        swap_entries(heap, pos, par);
        proof {
            let now = heap@;
            lemma_swapped(was, pos as int, par as int);
            assert forall|p: int| 1 <= p < now.len() && p != par implies #[trigger] link_ok(h, now, p) by {
                if p == pos {
                    lemma_before_asymmetric(
                        h[was[pos as int] as int],
                        was[pos as int] as int,
                        h[was[par as int] as int],
                        was[par as int] as int,
                    );
                } else if parent(p) == pos {
                    assert(grand_ok(h, was, p));
                } else if parent(p) == par {
                    assert(link_ok(h, was, p));
                    if before(h, was[p], was[pos as int]) {
                        lemma_before_transitive(
                            h[was[p] as int],
                            was[p] as int,
                            h[was[pos as int] as int],
                            was[pos as int] as int,
                            h[was[par as int] as int],
                            was[par as int] as int,
                        );
                    }
                } else {
                    assert(link_ok(h, was, p));
                }
            }
            assert forall|q: int| 1 <= q < now.len() && parent(q) == par && par >= 1 implies #[trigger] grand_ok(
                h,
                now,
                q,
            ) by {
                let top = parent(par as int);
                assert(link_ok(h, was, par as int));
                if q != pos {
                    assert(link_ok(h, was, q));
                    lemma_not_after_transitive(
                        h[was[top] as int],
                        was[top] as int,
                        h[was[par as int] as int],
                        was[par as int] as int,
                        h[was[q] as int],
                        was[q] as int,
                    );
                }
            }
        }
        pos = par;
    }
    proof {
        assert forall|p: int| 1 <= p < heap.len() implies #[trigger] link_ok(h, heap@, p) by {
            if p == pos {
            }
        }
    }
}

/// Moves the first source down until neither of the two below it is before it.
fn sift_down<I: StorageIterator>(iters: &Vec<Box<I>>, heap: &mut Vec<usize>)
    requires
        members_ok(iters@, old(heap)@),
        old(heap).len() > 0,
        forall|p: int|
            1 <= p < old(heap).len() && parent(p) != 0 ==> #[trigger] link_ok(
                heads_of(iters@),
                old(heap)@,
                p,
            ),
    ensures
        ordered(heads_of(iters@), final(heap)@),
        members_ok(iters@, final(heap)@),
        final(heap).len() == old(heap).len(),
        forall|x: usize| final(heap)@.contains(x) <==> old(heap)@.contains(x),
        old(heap)@.no_duplicates() ==> final(heap)@.no_duplicates(),
{
    let ghost h = heads_of(iters@);
    let len = heap.len();
    let mut pos: usize = 0;
    let mut settled = false;
    while !settled && pos < len - 1 - pos
        invariant
            h == heads_of(iters@),
            len == heap.len(),
            pos < len,
            heap.len() == old(heap).len(),
            members_ok(iters@, heap@),
            forall|x: usize| heap@.contains(x) <==> old(heap)@.contains(x),
            old(heap)@.no_duplicates() ==> heap@.no_duplicates(),
            settled ==> ordered(h, heap@),
            forall|p: int| 1 <= p < heap.len() && parent(p) != pos ==> #[trigger] link_ok(h, heap@, p),
            forall|q: int|
                1 <= q < heap.len() && parent(q) == pos && pos >= 1 ==> #[trigger] grand_ok(h, heap@, q),
        decreases len - pos, if settled { 0int } else { 1int },
    {
        let left = 2 * pos + 1;
        let right = left + 1;
        let mut child = left;
        if right < len && precedes(iters, heap[right], heap[left]) {
            child = right;
        }
        let ghost other = if child == left { right } else { left };
        proof {
            if other < len {
                lemma_before_asymmetric(
                    h[heap@[left as int] as int],
                    heap@[left as int] as int,
                    h[heap@[right as int] as int],
                    heap@[right as int] as int,
                );
                assert(!before(h, heap@[other as int], heap@[child as int]));
            }
        }
        if precedes(iters, heap[child], heap[pos]) {
            let ghost was = heap@;
            swap_entries(heap, pos, child);
            proof {
                let now = heap@;
                lemma_swapped(was, pos as int, child as int);
                assert forall|p: int| 1 <= p < now.len() && parent(p) != child implies #[trigger] link_ok(
                    h,
                    now,
                    p,
                ) by {
                    if p == child {
                        lemma_before_asymmetric(
                            h[was[pos as int] as int],
                            was[pos as int] as int,
                            h[was[child as int] as int],
                            was[child as int] as int,
                        );
                    } else if p == other {
                    } else if p == pos {
                        assert(grand_ok(h, was, child as int));
                    } else {
                        assert(parent(p) != pos);
                        assert(link_ok(h, was, p));
                    }
                }
                assert forall|q: int| 1 <= q < now.len() && parent(q) == child implies #[trigger] grand_ok(
                    h,
                    now,
                    q,
                ) by {
                    assert(link_ok(h, was, q));
                }
            }
            pos = child;
        } else {
            proof {
                assert forall|p: int| 1 <= p < heap.len() implies #[trigger] link_ok(h, heap@, p) by {
                    if p == other {
                        lemma_not_after_transitive(
                            h[heap@[pos as int] as int],
                            heap@[pos as int] as int,
                            h[heap@[child as int] as int],
                            heap@[child as int] as int,
                            h[heap@[other as int] as int],
                            heap@[other as int] as int,
                        );
                    } else if p == child {
                    } else {
                        assert(parent(p) != pos);
                    }
                }
            }
            settled = true;
        }
    }
    proof {
        if !settled {
            assert forall|p: int| 1 <= p < heap.len() implies #[trigger] link_ok(h, heap@, p) by {
                assert(parent(p) != pos);
            }
        }
    }
}

/// Puts source `x` into the heap.
pub(crate) fn heap_push<I: StorageIterator>(iters: &Vec<Box<I>>, heap: &mut Vec<usize>, x: usize)
    requires
        members_ok(iters@, old(heap)@),
        ordered(heads_of(iters@), old(heap)@),
        x < iters.len(),
        iters[x as int].inv(),
        iters[x as int].remaining().len() > 0,
    ensures
        ordered(heads_of(iters@), final(heap)@),
        members_ok(iters@, final(heap)@),
        final(heap).len() == old(heap).len() + 1,
        forall|y: usize| final(heap)@.contains(y) <==> (old(heap)@.contains(y) || y == x),
        old(heap)@.no_duplicates() && !old(heap)@.contains(x) ==> final(heap)@.no_duplicates(),
{
    let ghost h = heads_of(iters@);
    heap.push(x);
    let ghost grown = heap@;
    let last = heap.len() - 1;
    proof {
        assert forall|p: int| 1 <= p < grown.len() && p != last implies #[trigger] link_ok(h, grown, p) by {
            assert(link_ok(h, old(heap)@, p));
        }
        assert forall|y: usize| grown.contains(y) <==> (old(heap)@.contains(y) || y == x) by {
            if grown.contains(y) {
                let k = choose|k: int| 0 <= k < grown.len() && grown[k] == y;
                if k < last {
                    assert(old(heap)@[k] == y);
                }
            }
            if old(heap)@.contains(y) {
                let k = choose|k: int| 0 <= k < old(heap)@.len() && old(heap)@[k] == y;
                assert(grown[k] == y);
            }
            if y == x {
                assert(grown[last as int] == y);
            }
        }
        if old(heap)@.no_duplicates() && !old(heap)@.contains(x) {
            assert forall|i: int, j: int| 0 <= i < grown.len() && 0 <= j < grown.len() && i != j implies grown[i]
                != grown[j] by {
                if i < last && j < last {
                    assert(old(heap)@[i] != old(heap)@[j]);
                } else if i < last {
                    assert(old(heap)@.contains(old(heap)@[i]));
                } else {
                    assert(old(heap)@.contains(old(heap)@[j]));
                }
            }
        }
    }
    sift_up(iters, heap, last);
}

/// Takes the first source out of the heap: the one that is before all others.
pub(crate) fn heap_pop<I: StorageIterator>(iters: &Vec<Box<I>>, heap: &mut Vec<usize>) -> (x: usize)
    requires
        members_ok(iters@, old(heap)@),
        ordered(heads_of(iters@), old(heap)@),
        old(heap).len() > 0,
    ensures
        x == old(heap)@[0],
        forall|p: int| 0 <= p < old(heap).len() ==> !before(heads_of(iters@), #[trigger] old(heap)@[p], x),
        ordered(heads_of(iters@), final(heap)@),
        members_ok(iters@, final(heap)@),
        final(heap).len() == old(heap).len() - 1,
        forall|y: usize| final(heap)@.contains(y) ==> old(heap)@.contains(y),
        old(heap)@.no_duplicates() ==> final(heap)@.no_duplicates() && forall|y: usize|
            final(heap)@.contains(y) <==> (old(heap)@.contains(y) && y != x),
{
    let ghost h = heads_of(iters@);
    let ghost was = heap@;
    proof {
        assert forall|p: int| 0 <= p < was.len() implies !before(h, #[trigger] was[p], was[0]) by {
            lemma_root_first(h, was, p);
        }
    }
    let x = heap.swap_remove(0);
    let ghost cut = heap@;
    proof {
        let n = was.len() as int;
        assert(cut.len() == n - 1);
        assert forall|p: int| 0 <= p < cut.len() implies cut[p] == (if p == 0 {
            was[n - 1]
        } else {
            was[p]
        }) by {}
        assert forall|p: int| 0 <= p < cut.len() implies {
            &&& (#[trigger] cut[p]) < iters@.len()
            &&& iters@[cut[p] as int].inv()
            &&& iters@[cut[p] as int].remaining().len() > 0
        } by {
            if p == 0 {
                assert(cut[p] == was[n - 1]);
            } else {
                assert(cut[p] == was[p]);
            }
        }
        assert forall|p: int| 1 <= p < cut.len() && parent(p) != 0 implies #[trigger] link_ok(h, cut, p) by {
            assert(link_ok(h, was, p));
        }
        assert forall|y: usize| cut.contains(y) implies was.contains(y) by {
            let k = choose|k: int| 0 <= k < cut.len() && cut[k] == y;
            if k == 0 {
                assert(was[n - 1] == y);
            } else {
                assert(was[k] == y);
            }
        }
        if was.no_duplicates() {
            assert forall|i: int, j: int| 0 <= i < cut.len() && 0 <= j < cut.len() && i != j implies cut[i]
                != cut[j] by {
                let i2 = if i == 0 { n - 1 } else { i };
                let j2 = if j == 0 { n - 1 } else { j };
                assert(was[i2] != was[j2]);
            }
            assert forall|y: usize| cut.contains(y) <==> (was.contains(y) && y != x) by {
                if cut.contains(y) {
                    let k = choose|k: int| 0 <= k < cut.len() && cut[k] == y;
                    let k2 = if k == 0 { n - 1 } else { k };
                    assert(was[k2] == y);
                    assert(k2 != 0);
                    assert(was[k2] != was[0]);
                }
                if was.contains(y) && y != x {
                    let k = choose|k: int| 0 <= k < was.len() && was[k] == y;
                    let k2 = if k == n - 1 { 0 } else { k };
                    assert(cut[k2] == y);
                }
            }
        }
    }
    if heap.len() > 0 {
        sift_down(iters, heap);
    } else {
        assert(ordered(h, heap@));
    }
    x
}

/// Puts source `x` in the place of the first source, which it hands back, and
/// restores the order.
pub(crate) fn heap_replace_first<I: StorageIterator>(iters: &Vec<Box<I>>, heap: &mut Vec<usize>, x: usize) -> (first:
    usize)
    requires
        members_ok(iters@, old(heap)@),
        ordered(heads_of(iters@), old(heap)@),
        old(heap).len() > 0,
        old(heap)@.no_duplicates(),
        !old(heap)@.contains(x),
        x < iters.len(),
        iters[x as int].inv(),
        iters[x as int].remaining().len() > 0,
    ensures
        first == old(heap)@[0],
        forall|p: int| 0 <= p < old(heap).len() ==> !before(heads_of(iters@), #[trigger] old(heap)@[p], first),
        ordered(heads_of(iters@), final(heap)@),
        members_ok(iters@, final(heap)@),
        final(heap).len() == old(heap).len(),
        final(heap)@.no_duplicates(),
        forall|y: usize| final(heap)@.contains(y) <==> ((old(heap)@.contains(y) && y != first) || y == x),
{
    let ghost h = heads_of(iters@);
    let ghost was = heap@;
    proof {
        assert forall|p: int| 0 <= p < was.len() implies !before(h, #[trigger] was[p], was[0]) by {
            lemma_root_first(h, was, p);
        }
    }
    let first = heap[0];
    heap[0] = x;
    proof {
        let put = heap@;
        assert forall|p: int| 1 <= p < put.len() && parent(p) != 0 implies #[trigger] link_ok(h, put, p) by {
            assert(link_ok(h, was, p));
        }
        assert forall|i: int, j: int| 0 <= i < put.len() && 0 <= j < put.len() && i != j implies put[i]
            != put[j] by {
            if i != 0 && j != 0 {
                assert(was[i] != was[j]);
            } else if i == 0 {
                assert(was.contains(was[j]));
            } else {
                assert(was.contains(was[i]));
            }
        }
        assert forall|y: usize| put.contains(y) <==> ((was.contains(y) && y != first) || y == x) by {
            if put.contains(y) {
                let k = choose|k: int| 0 <= k < put.len() && put[k] == y;
                if k != 0 {
                    assert(was[k] == y);
                    assert(was[k] != was[0]);
                }
            }
            if was.contains(y) && y != first {
                let k = choose|k: int| 0 <= k < was.len() && was[k] == y;
                assert(put[k] == y);
            }
            if y == x {
                assert(put[0] == y);
            }
        }
    }
    sift_down(iters, heap);
    first
}

} // verus!
