use crate::keys::{
    key_lt, keys_increasing, lemma_key_lt_asymmetric, lemma_key_lt_irreflexive, lemma_key_lt_total,
    lemma_key_lt_transitive, Entry,
};
use vstd::prelude::*;

verus! {

/// The order in which a merge surfaces entries: by key, and among equal keys
/// by the index of the source, the lower index first.
pub open spec fn entry_before(ka: Seq<u8>, a: int, kb: Seq<u8>, b: int) -> bool {
    key_lt(ka, kb) || (ka == kb && a < b)
}

/// Of two entries at most one is before the other.
pub proof fn lemma_before_asymmetric(ka: Seq<u8>, a: int, kb: Seq<u8>, b: int)
    ensures
        !(entry_before(ka, a, kb, b) && entry_before(kb, b, ka, a)),
{
    lemma_key_lt_asymmetric(ka, kb);
    lemma_key_lt_irreflexive(ka);
}

/// The order of surfacing is transitive.
pub proof fn lemma_before_transitive(ka: Seq<u8>, a: int, kb: Seq<u8>, b: int, kc: Seq<u8>, c: int)
    requires
        entry_before(ka, a, kb, b),
        entry_before(kb, b, kc, c),
    ensures
        entry_before(ka, a, kc, c),
{
    if key_lt(ka, kb) && key_lt(kb, kc) {
        lemma_key_lt_transitive(ka, kb, kc);
    }
}

/// Two entries are ordered one way or the other, unless key and index agree.
pub proof fn lemma_before_total(ka: Seq<u8>, a: int, kb: Seq<u8>, b: int)
    ensures
        entry_before(ka, a, kb, b) || entry_before(kb, b, ka, a) || (ka == kb && a == b),
{
    lemma_key_lt_total(ka, kb);
}

/// What is not after `b`, with `b` not after `c`, is not after `c`.
pub proof fn lemma_not_after_transitive(ka: Seq<u8>, a: int, kb: Seq<u8>, b: int, kc: Seq<u8>, c: int)
    requires
        !entry_before(kb, b, ka, a),
        !entry_before(kc, c, kb, b),
    ensures
        !entry_before(kc, c, ka, a),
{
    if entry_before(kc, c, ka, a) {
        lemma_before_total(ka, a, kb, b);
        if entry_before(ka, a, kb, b) {
            lemma_before_transitive(kc, c, ka, a, kb, b);
        }
    }
}

/// Lane `i` still has an entry to give.
pub open spec fn live(lanes: Seq<Seq<Entry>>, i: int) -> bool {
    0 <= i < lanes.len() && lanes[i].len() > 0
}

/// The key at the head of lane `i`.
pub open spec fn head_key(lanes: Seq<Seq<Entry>>, i: int) -> Seq<u8> {
    lanes[i][0].0
}

/// The head of lane `i` surfaces before the head of lane `j`.
pub open spec fn lane_before(lanes: Seq<Seq<Entry>>, i: int, j: int) -> bool {
    entry_before(head_key(lanes, i), i, head_key(lanes, j), j)
}

/// Lane `f` holds the entry that surfaces next: the smallest key among the
/// heads, in the lane of lowest index among those that hold it.
pub open spec fn is_front(lanes: Seq<Seq<Entry>>, f: int) -> bool {
    &&& live(lanes, f)
    &&& forall|j: int| #[trigger] live(lanes, j) && j != f ==> lane_before(lanes, f, j)
}

/// Every lane gives its keys in strictly increasing order.
pub open spec fn lanes_sorted(lanes: Seq<Seq<Entry>>) -> bool {
    forall|i: int| 0 <= i < lanes.len() ==> keys_increasing(#[trigger] lanes[i])
}

/// The lanes once `key` has surfaced: every lane that had it at its head has
/// moved on by one entry.
pub open spec fn step_past(lanes: Seq<Seq<Entry>>, key: Seq<u8>) -> Seq<Seq<Entry>> {
    Seq::new(
        lanes.len(),
        |i: int|
            if lanes[i].len() > 0 && lanes[i][0].0 == key {
                lanes[i].skip(1)
            } else {
                lanes[i]
            },
    )
}

/// The number of entries in all lanes together.
pub open spec fn total(lanes: Seq<Seq<Entry>>) -> nat
    decreases lanes.len(),
{
    if lanes.len() == 0 {
        0
    } else {
        total(lanes.drop_last()) + lanes.last().len()
    }
}

/// Lanes that are no longer, one by one, hold no more entries together.
pub proof fn lemma_total_le(a: Seq<Seq<Entry>>, b: Seq<Seq<Entry>>)
    requires
        a.len() == b.len(),
        forall|i: int| 0 <= i < a.len() ==> a[i].len() <= b[i].len(),
    ensures
        total(a) <= total(b),
    decreases a.len(),
{
    if a.len() > 0 {
        lemma_total_le(a.drop_last(), b.drop_last());
    }
}

/// Lanes that are no longer, one by one, and shorter in one place, hold fewer
/// entries together.
pub proof fn lemma_total_lt(a: Seq<Seq<Entry>>, b: Seq<Seq<Entry>>, f: int)
    requires
        a.len() == b.len(),
        forall|i: int| 0 <= i < a.len() ==> a[i].len() <= b[i].len(),
        0 <= f < a.len(),
        a[f].len() < b[f].len(),
    ensures
        total(a) < total(b),
    decreases a.len(),
{
    if f == a.len() - 1 {
        lemma_total_le(a.drop_last(), b.drop_last());
    } else {
        lemma_total_lt(a.drop_last(), b.drop_last(), f);
    }
}

/// Letting a key surface takes at least one entry away.
pub proof fn lemma_step_shrinks(lanes: Seq<Seq<Entry>>, f: int)
    requires
        live(lanes, f),
    ensures
        total(step_past(lanes, head_key(lanes, f))) < total(lanes),
{
    lemma_total_lt(step_past(lanes, head_key(lanes, f)), lanes, f);
}

/// What a merge of the lanes gives, in order: the entry of the front lane,
/// then the merge of what is left once its key has surfaced everywhere.
pub open spec fn merged(lanes: Seq<Seq<Entry>>) -> Seq<Entry>
    decreases total(lanes),
    via merged_decreases
{
    if exists|f: int| is_front(lanes, f) {
        let f = choose|f: int| is_front(lanes, f);
        seq![lanes[f][0]] + merged(step_past(lanes, head_key(lanes, f)))
    } else {
        Seq::empty()
    }
}

#[via_fn]
proof fn merged_decreases(lanes: Seq<Seq<Entry>>) {
    if exists|f: int| is_front(lanes, f) {
        let f = choose|f: int| is_front(lanes, f);
        lemma_step_shrinks(lanes, f);
    }
}

/// At most one lane is the front.
pub proof fn lemma_front_unique(lanes: Seq<Seq<Entry>>, f: int, g: int)
    requires
        is_front(lanes, f),
        is_front(lanes, g),
    ensures
        f == g,
{
    if f != g {
        assert(live(lanes, g));
        assert(live(lanes, f));
        lemma_before_asymmetric(head_key(lanes, f), f, head_key(lanes, g), g);
    }
}

/// The merge starts with the head of the front lane.
pub proof fn lemma_merged_step(lanes: Seq<Seq<Entry>>, f: int)
    requires
        is_front(lanes, f),
    ensures
        merged(lanes) == seq![lanes[f][0]] + merged(step_past(lanes, head_key(lanes, f))),
        merged(lanes).len() > 0,
        merged(lanes)[0] == lanes[f][0],
        merged(lanes).skip(1) == merged(step_past(lanes, head_key(lanes, f))),
{
    let g = choose|g: int| is_front(lanes, g);
    lemma_front_unique(lanes, f, g);
    let rest = merged(step_past(lanes, head_key(lanes, f)));
    assert((seq![lanes[f][0]] + rest).skip(1) =~= rest);
}

/// Lanes that have nothing left merge to nothing.
pub proof fn lemma_merged_of_empty(lanes: Seq<Seq<Entry>>)
    requires
        forall|i: int| 0 <= i < lanes.len() ==> lanes[i].len() == 0,
    ensures
        merged(lanes) == Seq::<Entry>::empty(),
{
    assert forall|f: int| !is_front(lanes, f) by {
        if 0 <= f < lanes.len() {
            assert(lanes[f].len() == 0);
        }
    }
}

/// Sorted lanes stay sorted when a key has surfaced.
pub proof fn lemma_step_sorted(lanes: Seq<Seq<Entry>>, key: Seq<u8>)
    requires
        lanes_sorted(lanes),
    ensures
        lanes_sorted(step_past(lanes, key)),
{
    let next = step_past(lanes, key);
    assert forall|i: int| 0 <= i < next.len() implies keys_increasing(#[trigger] next[i]) by {
        assert(keys_increasing(lanes[i]));
        if lanes[i].len() > 0 && lanes[i][0].0 == key {
            let s = lanes[i];
            assert forall|a: int, b: int| 0 <= a < b < s.skip(1).len() implies key_lt(
                #[trigger] s.skip(1)[a].0,
                #[trigger] s.skip(1)[b].0,
            ) by {
                assert(key_lt(s[a + 1].0, s[b + 1].0));
            }
        }
    }
}

/// Where every head is above `key`, so is every key of the merge.
pub proof fn lemma_merged_above(lanes: Seq<Seq<Entry>>, key: Seq<u8>)
    requires
        lanes_sorted(lanes),
        forall|i: int| #[trigger] live(lanes, i) ==> key_lt(key, head_key(lanes, i)),
    ensures
        forall|j: int| 0 <= j < merged(lanes).len() ==> key_lt(key, #[trigger] merged(lanes)[j].0),
    decreases total(lanes),
{
    if exists|f: int| is_front(lanes, f) {
        let f = choose|f: int| is_front(lanes, f);
        let k = head_key(lanes, f);
        let next = step_past(lanes, k);
        lemma_merged_step(lanes, f);
        lemma_step_shrinks(lanes, f);
        lemma_step_sorted(lanes, k);
        assert(live(lanes, f));
        assert forall|i: int| #[trigger] live(next, i) implies key_lt(key, head_key(next, i)) by {
            assert(live(lanes, i));
            if lanes[i][0].0 == k {
                assert(keys_increasing(lanes[i]));
                assert(key_lt(lanes[i][0].0, lanes[i][1].0));
                lemma_key_lt_transitive(key, lanes[i][0].0, lanes[i][1].0);
            }
        }
        lemma_merged_above(next, key);
        let rest = merged(next);
        assert forall|j: int| 0 <= j < merged(lanes).len() implies key_lt(
            key,
            #[trigger] merged(lanes)[j].0,
        ) by {
            if j > 0 {
                assert(merged(lanes)[j] == rest[j - 1]);
            }
        }
    }
}

/// Once the front key has surfaced, every head is above it.
pub proof fn lemma_heads_above_front(lanes: Seq<Seq<Entry>>, f: int)
    requires
        lanes_sorted(lanes),
        is_front(lanes, f),
    ensures
        forall|i: int| #[trigger]
            live(step_past(lanes, head_key(lanes, f)), i) ==> key_lt(
                head_key(lanes, f),
                head_key(step_past(lanes, head_key(lanes, f)), i),
            ),
{
    let k = head_key(lanes, f);
    let next = step_past(lanes, k);
    assert forall|i: int| #[trigger] live(next, i) implies key_lt(k, head_key(next, i)) by {
        assert(live(lanes, i));
        if lanes[i][0].0 == k {
            assert(keys_increasing(lanes[i]));
            assert(key_lt(lanes[i][0].0, lanes[i][1].0));
        } else {
            assert(i != f);
            assert(lane_before(lanes, f, i));
        }
    }
}

/// A merge of sorted lanes gives its keys in strictly increasing order.
pub proof fn lemma_merged_increasing(lanes: Seq<Seq<Entry>>)
    requires
        lanes_sorted(lanes),
    ensures
        keys_increasing(merged(lanes)),
    decreases total(lanes),
{
    if exists|f: int| is_front(lanes, f) {
        let f = choose|f: int| is_front(lanes, f);
        let k = head_key(lanes, f);
        let next = step_past(lanes, k);
        lemma_merged_step(lanes, f);
        lemma_step_shrinks(lanes, f);
        lemma_step_sorted(lanes, k);
        lemma_heads_above_front(lanes, f);
        lemma_merged_above(next, k);
        lemma_merged_increasing(next);
        let all = merged(lanes);
        let rest = merged(next);
        assert forall|a: int, b: int| 0 <= a < b < all.len() implies key_lt(
            #[trigger] all[a].0,
            #[trigger] all[b].0,
        ) by {
            assert(all[b] == rest[b - 1]);
            if a > 0 {
                assert(all[a] == rest[a - 1]);
                assert(key_lt(rest[a - 1].0, rest[b - 1].0));
            }
        }
    }
}

/// Among lanes of which one is live, one is the front.
pub proof fn lemma_front_exists(lanes: Seq<Seq<Entry>>)
    requires
        exists|i: int| live(lanes, i),
    ensures
        exists|f: int| is_front(lanes, f),
{
    let f = lemma_front_among(lanes, lanes.len() as int);
    assert(is_front(lanes, f));
}

proof fn lemma_front_among(lanes: Seq<Seq<Entry>>, n: int) -> (f: int)
    requires
        0 <= n <= lanes.len(),
        exists|i: int| live(lanes, i) && i < n,
    ensures
        live(lanes, f),
        f < n,
        forall|j: int| #[trigger] live(lanes, j) && j < n && j != f ==> lane_before(lanes, f, j),
    decreases n,
{
    let last = n - 1;
    if exists|i: int| live(lanes, i) && i < last {
        let g = lemma_front_among(lanes, last);
        if live(lanes, last) && lane_before(lanes, last, g) {
            assert forall|j: int| #[trigger] live(lanes, j) && j < n && j != last implies lane_before(
                lanes,
                last,
                j,
            ) by {
                if j != g {
                    lemma_before_transitive(
                        head_key(lanes, last),
                        last,
                        head_key(lanes, g),
                        g,
                        head_key(lanes, j),
                        j,
                    );
                }
            }
            last
        } else {
            if live(lanes, last) {
                lemma_before_total(head_key(lanes, g), g, head_key(lanes, last), last);
            }
            g
        }
    } else {
        let w = choose|i: int| live(lanes, i) && i < n;
        assert(w == last);
        last
    }
}

/// Lane `lane` holds an entry with the key `key`.
pub open spec fn holds_key(lane: Seq<Entry>, key: Seq<u8>) -> bool {
    exists|p: int| 0 <= p < lane.len() && (#[trigger] lane[p]).0 == key
}

/// Entry `p` of lane `i` is the one that a merge gives for its key: no lane
/// of lower index holds that key.
pub open spec fn surfaces(lanes: Seq<Seq<Entry>>, i: int, p: int) -> bool {
    &&& 0 <= i < lanes.len()
    &&& 0 <= p < lanes[i].len()
    &&& forall|h: int| 0 <= h < i ==> !holds_key(#[trigger] lanes[h], lanes[i][p].0)
}

/// The key of an entry of a sorted lane is the head key or above it.
proof fn lemma_head_lowest(lane: Seq<Entry>, p: int)
    requires
        keys_increasing(lane),
        0 <= p < lane.len(),
    ensures
        p == 0 || key_lt(lane[0].0, lane[p].0),
{
}

/// The front key is in no lane of lower index than the front, and below
/// every other key of the lanes.
proof fn lemma_front_lowest(lanes: Seq<Seq<Entry>>, f: int, h: int, q: int)
    requires
        lanes_sorted(lanes),
        is_front(lanes, f),
        0 <= h < lanes.len(),
        0 <= q < lanes[h].len(),
    ensures
        lanes[h][q].0 == head_key(lanes, f) ==> q == 0 && f <= h,
        lanes[h][q].0 != head_key(lanes, f) ==> key_lt(head_key(lanes, f), lanes[h][q].0),
{
    let k = head_key(lanes, f);
    assert(live(lanes, h));
    assert(keys_increasing(lanes[h]));
    lemma_head_lowest(lanes[h], q);
    lemma_key_lt_irreflexive(k);
    lemma_key_lt_asymmetric(k, head_key(lanes, h));
    if h != f {
        assert(lane_before(lanes, f, h));
    }
    if q > 0 {
        if key_lt(k, head_key(lanes, h)) {
            lemma_key_lt_transitive(k, head_key(lanes, h), lanes[h][q].0);
        }
    }
}

/// An entry of the lanes whose key is not `key` is still there once `key`
/// has surfaced, one place lower where its lane has moved on.
proof fn lemma_step_keeps(lanes: Seq<Seq<Entry>>, key: Seq<u8>, h: int, q: int)
    requires
        0 <= h < lanes.len(),
        0 <= q < lanes[h].len(),
        lanes[h][q].0 != key,
    ensures
        holds_key(step_past(lanes, key)[h], lanes[h][q].0),
        lanes[h][0].0 == key ==> q >= 1 && step_past(lanes, key)[h][q - 1] == lanes[h][q],
        lanes[h][0].0 != key ==> step_past(lanes, key)[h][q] == lanes[h][q],
{
    let next = step_past(lanes, key);
    if lanes[h][0].0 == key {
        assert(next[h][q - 1] == lanes[h][q]);
    } else {
        assert(next[h][q] == lanes[h][q]);
    }
}

/// What a lane holds once `key` has surfaced, it held before.
proof fn lemma_step_held(lanes: Seq<Seq<Entry>>, key: Seq<u8>, h: int, other: Seq<u8>)
    requires
        0 <= h < lanes.len(),
        holds_key(step_past(lanes, key)[h], other),
    ensures
        holds_key(lanes[h], other),
{
    let next = step_past(lanes, key);
    let q = choose|q: int| 0 <= q < next[h].len() && (#[trigger] next[h][q]).0 == other;
    if lanes[h].len() > 0 && lanes[h][0].0 == key {
        assert(lanes[h][q + 1].0 == other);
    } else {
        assert(lanes[h][q].0 == other);
    }
}

/// Every entry that a merge gives is an entry of a lane, and no lane of
/// lower index holds its key.
pub proof fn lemma_merged_sound(lanes: Seq<Seq<Entry>>, j: int)
    requires
        lanes_sorted(lanes),
        0 <= j < merged(lanes).len(),
    ensures
        exists|i: int, p: int| surfaces(lanes, i, p) && lanes[i][p] == merged(lanes)[j],
    decreases total(lanes),
{
    let f = choose|f: int| is_front(lanes, f);
    let k = head_key(lanes, f);
    let next = step_past(lanes, k);
    lemma_merged_step(lanes, f);
    if j == 0 {
        assert forall|h: int| 0 <= h < f implies !holds_key(#[trigger] lanes[h], k) by {
            if holds_key(lanes[h], k) {
                let q = choose|q: int| 0 <= q < lanes[h].len() && (#[trigger] lanes[h][q]).0 == k;
                lemma_front_lowest(lanes, f, h, q);
            }
        }
        assert(surfaces(lanes, f, 0));
    } else {
        lemma_step_shrinks(lanes, f);
        lemma_step_sorted(lanes, k);
        assert(merged(lanes)[j] == merged(next)[j - 1]);
        lemma_merged_sound(next, j - 1);
        let (i, p) = choose|i: int, p: int| surfaces(next, i, p) && next[i][p] == merged(next)[j - 1];
        let e = next[i][p];
        let moved = lanes[i].len() > 0 && lanes[i][0].0 == k;
        let here = if moved { p + 1 } else { p };
        assert(lanes[i][here] == e);
        lemma_front_lowest(lanes, f, i, here);
        if e.0 == k {
            assert(keys_increasing(lanes[i]));
            lemma_head_lowest(lanes[i], here);
            lemma_key_lt_irreflexive(k);
        }
        assert forall|h: int| 0 <= h < i implies !holds_key(#[trigger] lanes[h], e.0) by {
            if holds_key(lanes[h], e.0) {
                let q = choose|q: int| 0 <= q < lanes[h].len() && (#[trigger] lanes[h][q]).0 == e.0;
                lemma_step_keeps(lanes, k, h, q);
                assert(holds_key(next[h], e.0));
            }
        }
        assert(surfaces(lanes, i, here));
    }
}

/// A merge gives every entry of a lane whose key no lane of lower index holds.
pub proof fn lemma_merged_complete(lanes: Seq<Seq<Entry>>, i: int, p: int)
    requires
        lanes_sorted(lanes),
        surfaces(lanes, i, p),
    ensures
        merged(lanes).contains(lanes[i][p]),
    decreases total(lanes),
{
    assert(live(lanes, i));
    lemma_front_exists(lanes);
    let f = choose|f: int| is_front(lanes, f);
    let k = head_key(lanes, f);
    let next = step_past(lanes, k);
    let e = lanes[i][p];
    lemma_merged_step(lanes, f);
    lemma_front_lowest(lanes, f, i, p);
    if e.0 == k {
        if i != f {
            assert(lanes[f][0].0 == k);
            assert(holds_key(lanes[f], k));
        }
        assert(merged(lanes)[0] == e);
    } else {
        lemma_step_shrinks(lanes, f);
        lemma_step_sorted(lanes, k);
        lemma_step_keeps(lanes, k, i, p);
        let there = if lanes[i][0].0 == k { p - 1 } else { p };
        assert(next[i][there] == e);
        assert forall|h: int| 0 <= h < i implies !holds_key(#[trigger] next[h], e.0) by {
            if holds_key(next[h], e.0) {
                lemma_step_held(lanes, k, h, e.0);
            }
        }
        assert(surfaces(next, i, there));
        lemma_merged_complete(next, i, there);
        let j = choose|j: int| 0 <= j < merged(next).len() && merged(next)[j] == e;
        assert(merged(lanes)[j + 1] == e);
    }
}

/// A merge gives every key that a lane holds.
pub proof fn lemma_merged_keeps_keys(lanes: Seq<Seq<Entry>>, i: int, p: int)
    requires
        lanes_sorted(lanes),
        0 <= i < lanes.len(),
        0 <= p < lanes[i].len(),
    ensures
        holds_key(merged(lanes), lanes[i][p].0),
    decreases i,
{
    let key = lanes[i][p].0;
    if exists|h: int| 0 <= h < i && holds_key(#[trigger] lanes[h], key) {
        let h = choose|h: int| 0 <= h < i && holds_key(#[trigger] lanes[h], key);
        let q = choose|q: int| 0 <= q < lanes[h].len() && (#[trigger] lanes[h][q]).0 == key;
        lemma_merged_keeps_keys(lanes, h, q);
    } else {
        assert(surfaces(lanes, i, p));
        lemma_merged_complete(lanes, i, p);
        let j = choose|j: int| 0 <= j < merged(lanes).len() && merged(lanes)[j] == lanes[i][p];
        assert(merged(lanes)[j].0 == key);
    }
}

} // verus!
