//! Strictly ascending sequences of ids, and the facts about them that the
//! order index and the pagination rest on.

use vstd::prelude::*;

verus! {

/// Every element is smaller than each element after it.
pub open spec fn ascending(ids: Seq<nat>) -> bool {
    forall|i: int, j: int| 0 <= i < j < ids.len() ==> ids[i] < ids[j]
}

/// The first `n` elements of `s`, or all of `s` where it has fewer.
pub open spec fn first_n<A>(s: Seq<A>, n: nat) -> Seq<A> {
    if n <= s.len() {
        s.take(n as int)
    } else {
        s
    }
}

/// Up to `limit` elements of `s` after skipping its first `offset`.
pub open spec fn window<A>(s: Seq<A>, offset: nat, limit: nat) -> Seq<A> {
    if offset <= s.len() {
        first_n(s.skip(offset as int), limit)
    } else {
        Seq::empty()
    }
}

/// The predicate "smaller than `id`".
pub open spec fn below(id: nat) -> spec_fn(nat) -> bool {
    |x: nat| x < id
}

/// The predicate "greater than `id`".
pub open spec fn above(id: nat) -> spec_fn(nat) -> bool {
    |x: nat| x > id
}

/// The predicate "other than `id`".
pub open spec fn other_than(id: nat) -> spec_fn(nat) -> bool {
    |x: nat| x != id
}

/// The predicate "from `lo` to `hi`, both included".
pub open spec fn between(lo: nat, hi: nat) -> spec_fn(nat) -> bool {
    |x: nat| lo <= x <= hi
}

/// The predicate "not in `gone`".
pub open spec fn outside(gone: Set<nat>) -> spec_fn(nat) -> bool {
    |x: nat| !gone.contains(x)
}

/// What `first_n` returns comes from the sequence.
pub proof fn lemma_first_n_within<A>(s: Seq<A>, n: nat)
    ensures
        forall|x: A| first_n(s, n).contains(x) ==> s.contains(x),
{
    assert forall|x: A| first_n(s, n).contains(x) implies s.contains(x) by {
        let part = first_n(s, n);
        let k = choose|k: int| 0 <= k < part.len() && part[k] == x;
        assert(s[k] == x);
    }
}

/// What `window` returns comes from the sequence.
pub proof fn lemma_window_within<A>(s: Seq<A>, offset: nat, limit: nat)
    ensures
        forall|x: A| window(s, offset, limit).contains(x) ==> s.contains(x),
{
    assert forall|x: A| window(s, offset, limit).contains(x) implies s.contains(x) by {
        let part = window(s, offset, limit);
        let k = choose|k: int| 0 <= k < part.len() && part[k] == x;
        assert(s[offset + k] == x);
    }
}

/// An ascending sequence holds no element twice.
pub proof fn lemma_ascending_no_duplicates(ids: Seq<nat>)
    requires
        ascending(ids),
    ensures
        ids.no_duplicates(),
{
    assert forall|i: int, j: int| 0 <= i < ids.len() && 0 <= j < ids.len() && i != j implies ids[i]
        != ids[j] by {
        if i < j {
            assert(ids[i] < ids[j]);
        } else {
            assert(ids[j] < ids[i]);
        }
    }
}

/// Filtering keeps a sequence ascending, and keeps exactly the elements that
/// satisfy the predicate.
pub proof fn lemma_filter_ascending(ids: Seq<nat>, keep: spec_fn(nat) -> bool)
    requires
        ascending(ids),
    ensures
        ascending(ids.filter(keep)),
        forall|id: nat| ids.filter(keep).contains(id) <==> ids.contains(id) && keep(id),
    decreases ids.len(),
{
    reveal(Seq::filter);
    if ids.len() > 0 {
        let rest = ids.drop_last();
        let last = ids.last();
        lemma_filter_ascending(rest, keep);
        let kept = rest.filter(keep);
        assert forall|id: nat| ids.contains(id) <==> rest.contains(id) || id == last by {
            if ids.contains(id) {
                let i = choose|i: int| 0 <= i < ids.len() && ids[i] == id;
                if i < ids.len() - 1 {
                    assert(rest[i] == id);
                }
            }
            if rest.contains(id) {
                let i = choose|i: int| 0 <= i < rest.len() && rest[i] == id;
                assert(ids[i] == id);
            }
            if id == last {
                assert(ids[ids.len() - 1] == id);
            }
        }
        if keep(last) {
            let out = kept.push(last);
            assert forall|i: int, j: int| 0 <= i < j < out.len() implies out[i] < out[j] by {
                if j == out.len() - 1 {
                    assert(kept.contains(out[i]));
                    assert(rest.contains(out[i]));
                    let k = choose|k: int| 0 <= k < rest.len() && rest[k] == out[i];
                    assert(ids[k] < ids[ids.len() - 1]);
                }
            }
            assert forall|id: nat| out.contains(id) <==> ids.contains(id) && keep(id) by {
                if out.contains(id) {
                    let i = choose|i: int| 0 <= i < out.len() && out[i] == id;
                    if i < kept.len() {
                        assert(kept.contains(id));
                    }
                }
                if ids.contains(id) && keep(id) {
                    if id == last {
                        assert(out[out.len() - 1] == id);
                    } else {
                        assert(kept.contains(id));
                        let i = choose|i: int| 0 <= i < kept.len() && kept[i] == id;
                        assert(out[i] == id);
                    }
                }
            }
        }
    }
}

/// Two ascending sequences with the same elements are the same sequence.
pub proof fn lemma_ascending_unique(a: Seq<nat>, b: Seq<nat>)
    requires
        ascending(a),
        ascending(b),
        forall|id: nat| a.contains(id) <==> b.contains(id),
    ensures
        a == b,
    decreases a.len(),
{
    if a.len() == 0 {
        if b.len() > 0 {
            assert(b.contains(b[0]));
            assert(a.contains(b[0]));
        }
        assert(a =~= b);
    } else {
        assert(a.contains(a.last()));
        assert(b.contains(a.last()));
        assert(b.len() > 0);
        assert(b.contains(b.last()));
        assert(a.contains(b.last()));
        let i = choose|i: int| 0 <= i < a.len() && a[i] == b.last();
        let j = choose|j: int| 0 <= j < b.len() && b[j] == a.last();
        assert(a.last() == b.last()) by {
            if i < a.len() - 1 {
                assert(a[i] < a[a.len() - 1]);
            }
            if j < b.len() - 1 {
                assert(b[j] < b[b.len() - 1]);
            }
        }
        let a0 = a.drop_last();
        let b0 = b.drop_last();
        assert forall|id: nat| a0.contains(id) <==> b0.contains(id) by {
            if a0.contains(id) {
                let k = choose|k: int| 0 <= k < a0.len() && a0[k] == id;
                assert(a[k] == id && a[k] < a[a.len() - 1]);
                assert(a.contains(id));
                let m = choose|m: int| 0 <= m < b.len() && b[m] == id;
                assert(b0[m] == id);
            }
            if b0.contains(id) {
                let k = choose|k: int| 0 <= k < b0.len() && b0[k] == id;
                assert(b[k] == id && b[k] < b[b.len() - 1]);
                assert(b.contains(id));
                let m = choose|m: int| 0 <= m < a.len() && a[m] == id;
                assert(a0[m] == id);
            }
        }
        lemma_ascending_unique(a0, b0);
        assert(a =~= a0.push(a.last()));
        assert(b =~= b0.push(b.last()));
    }
}

/// An ascending sequence that holds exactly the elements of `ids` that satisfy
/// `keep` is `ids` filtered by `keep`.
pub proof fn lemma_filter_characterized(ids: Seq<nat>, keep: spec_fn(nat) -> bool, kept: Seq<nat>)
    requires
        ascending(ids),
        ascending(kept),
        forall|id: nat| kept.contains(id) <==> ids.contains(id) && keep(id),
    ensures
        kept == ids.filter(keep),
{
    lemma_filter_ascending(ids, keep);
    lemma_ascending_unique(kept, ids.filter(keep));
}

/// Where `keep` holds of exactly the elements at positions `from` up to, not
/// including, `to`, filtering by `keep` cuts out that stretch.
pub proof fn lemma_filter_is_subrange(
    ids: Seq<nat>,
    keep: spec_fn(nat) -> bool,
    from: int,
    to: int,
)
    requires
        ascending(ids),
        0 <= from <= to <= ids.len(),
        forall|i: int| 0 <= i < ids.len() ==> (keep(#[trigger] ids[i]) <==> from <= i < to),
    ensures
        ids.filter(keep) == ids.subrange(from, to),
{
    let kept = ids.subrange(from, to);
    assert forall|i: int, j: int| 0 <= i < j < kept.len() implies kept[i] < kept[j] by {
        assert(ids[from + i] < ids[from + j]);
    }
    assert forall|id: nat| kept.contains(id) <==> ids.contains(id) && keep(id) by {
        if kept.contains(id) {
            let k = choose|k: int| 0 <= k < kept.len() && kept[k] == id;
            assert(ids[from + k] == id);
        }
        if ids.contains(id) && keep(id) {
            let k = choose|k: int| 0 <= k < ids.len() && ids[k] == id;
            assert(kept[k - from] == id);
        }
    }
    lemma_filter_characterized(ids, keep, kept);
}

/// An ascending sequence with `id` put in at its place: the ids below `id`,
/// then `id`, then the ids above it.
pub open spec fn with_id(ids: Seq<nat>, id: nat) -> Seq<nat> {
    ids.filter(below(id)).push(id) + ids.filter(above(id))
}

/// Putting a new id at the position that its size gives it yields `with_id`.
pub proof fn lemma_insert_new(ids: Seq<nat>, id: nat, pos: int)
    requires
        ascending(ids),
        0 <= pos <= ids.len(),
        forall|i: int| 0 <= i < pos ==> ids[i] < id,
        forall|i: int| pos <= i < ids.len() ==> ids[i] >= id,
        pos < ids.len() ==> ids[pos] != id,
    ensures
        ids.insert(pos, id) == with_id(ids, id),
        ascending(with_id(ids, id)),
        !ids.contains(id),
{
    assert forall|i: int| pos <= i < ids.len() implies ids[i] > id by {
        if pos < i {
            assert(ids[pos] < ids[i]);
        }
    }
    lemma_filter_is_subrange(ids, below(id), 0, pos);
    lemma_filter_is_subrange(ids, above(id), pos, ids.len() as int);
    let after = ids.insert(pos, id);
    assert(after =~= with_id(ids, id));
    assert forall|i: int, j: int| 0 <= i < j < after.len() implies after[i] < after[j] by {
        if j < pos {
            assert(ids[i] < ids[j]);
        } else if j == pos {
            assert(ids[i] < id);
        } else if i == pos {
            assert(ids[j - 1] > id);
        } else if i < pos {
            assert(ids[i] < id);
            assert(ids[j - 1] > id);
        } else {
            assert(ids[i - 1] < ids[j - 1]);
        }
    }
}

/// Putting in an id that is greater than every id of the sequence appends it.
pub proof fn lemma_with_id_largest(ids: Seq<nat>, id: nat)
    requires
        ascending(ids),
        forall|i: int| 0 <= i < ids.len() ==> ids[i] < id,
    ensures
        with_id(ids, id) == ids.push(id),
        !ids.contains(id),
{
    lemma_insert_new(ids, id, ids.len() as int);
    assert(ids.insert(ids.len() as int, id) =~= ids.push(id));
}

/// The element at position `i` of an ascending sequence of natural numbers is
/// at least `i`, so the sequence is no longer than its elements allow.
pub proof fn lemma_ascending_at_least_index(ids: Seq<nat>, i: int)
    requires
        ascending(ids),
        0 <= i < ids.len(),
    ensures
        ids[i] >= i,
    decreases i,
{
    if i > 0 {
        lemma_ascending_at_least_index(ids, i - 1);
        assert(ids[i - 1] < ids[i]);
    }
}

/// Taking the element at `pos` out of an ascending sequence filters that
/// element away.
pub proof fn lemma_remove_at(ids: Seq<nat>, pos: int)
    requires
        ascending(ids),
        0 <= pos < ids.len(),
    ensures
        ids.remove(pos) == ids.filter(other_than(ids[pos])),
        ascending(ids.remove(pos)),
{
    let id = ids[pos];
    let after = ids.remove(pos);
    let keep = other_than(id);
    assert forall|i: int, j: int| 0 <= i < j < after.len() implies after[i] < after[j] by {
        let a = if i >= pos { i + 1 } else { i };
        let b = if j >= pos { j + 1 } else { j };
        assert(ids[a] < ids[b]);
    }
    assert forall|x: nat| after.contains(x) <==> ids.contains(x) && keep(x) by {
        if after.contains(x) {
            let k = choose|k: int| 0 <= k < after.len() && after[k] == x;
            let a = if k >= pos { k + 1 } else { k };
            assert(ids[a] == x);
            if a < pos {
                assert(ids[a] < ids[pos]);
            } else {
                assert(ids[pos] < ids[a]);
            }
        }
        if ids.contains(x) && keep(x) {
            let k = choose|k: int| 0 <= k < ids.len() && ids[k] == x;
            let a = if k > pos { k - 1 } else { k };
            assert(after[a] == x);
        }
    }
    lemma_filter_characterized(ids, keep, after);
}

/// Filtering away an id that an ascending sequence does not hold changes
/// nothing.
pub proof fn lemma_remove_absent(ids: Seq<nat>, id: nat)
    requires
        ascending(ids),
        !ids.contains(id),
    ensures
        ids == ids.filter(other_than(id)),
{
    lemma_filter_characterized(ids, other_than(id), ids);
}

/// The ids of an ascending sequence that lie below a bound are a prefix of it.
pub proof fn lemma_filter_below_is_prefix(ids: Seq<nat>, bound: nat)
    requires
        ascending(ids),
    ensures
        ids.filter(below(bound)).len() <= ids.len(),
        ids.filter(below(bound)) == ids.take(ids.filter(below(bound)).len() as int),
    decreases ids.len(),
{
    reveal(Seq::filter);
    if ids.len() == 0 {
        assert(ids.filter(below(bound)) =~= ids.take(0));
    } else if ids.last() < bound {
        assert forall|id: nat| ids.contains(id) implies below(bound)(id) by {
            let k = choose|k: int| 0 <= k < ids.len() && ids[k] == id;
            if k < ids.len() - 1 {
                assert(ids[k] < ids[ids.len() - 1]);
            }
        }
        lemma_filter_characterized(ids, below(bound), ids);
        assert(ids.take(ids.len() as int) =~= ids);
    } else {
        let rest = ids.drop_last();
        lemma_filter_below_is_prefix(rest, bound);
        let n = rest.filter(below(bound)).len() as int;
        assert(rest.take(n) =~= ids.take(n));
    }
}

/// Filtering away two sets of ids, one after the other, filters away their
/// union.
pub proof fn lemma_filter_outside_twice(ids: Seq<nat>, gone: Set<nat>, more: Set<nat>)
    requires
        ascending(ids),
    ensures
        ids.filter(outside(gone)).filter(outside(more)) == ids.filter(outside(gone.union(more))),
{
    let once = ids.filter(outside(gone));
    lemma_filter_ascending(ids, outside(gone));
    lemma_filter_ascending(once, outside(more));
    lemma_filter_characterized(ids, outside(gone.union(more)), once.filter(outside(more)));
}

/// Filtering away the one-element set of `id` filters away `id`.
pub proof fn lemma_filter_outside_one(ids: Seq<nat>, id: nat)
    requires
        ascending(ids),
    ensures
        ids.filter(outside(set![id])) == ids.filter(other_than(id)),
{
    lemma_filter_ascending(ids, other_than(id));
    lemma_filter_characterized(ids, outside(set![id]), ids.filter(other_than(id)));
}

/// Filtering by a predicate that every element satisfies changes nothing.
pub proof fn lemma_filter_all(ids: Seq<nat>, keep: spec_fn(nat) -> bool)
    requires
        ascending(ids),
        forall|id: nat| ids.contains(id) ==> keep(id),
    ensures
        ids.filter(keep) == ids,
{
    lemma_filter_characterized(ids, keep, ids);
}

/// Filtering away a finite set of ids that all occur in an ascending
/// sequence shortens it by the size of the set.
pub proof fn lemma_filter_outside_len(ids: Seq<nat>, gone: Set<nat>)
    requires
        ascending(ids),
        gone.finite(),
        forall|id: nat| gone.contains(id) ==> ids.contains(id),
    ensures
        ids.filter(outside(gone)).len() + gone.len() == ids.len(),
    decreases ids.len(),
{
    reveal(Seq::filter);
    if ids.len() == 0 {
        assert forall|id: nat| !gone.contains(id) by {
            if gone.contains(id) {
                assert(ids.contains(id));
            }
        }
        assert(gone =~= Set::<nat>::empty());
    } else {
        let rest = ids.drop_last();
        let last = ids.last();
        assert forall|id: nat| ids.contains(id) <==> rest.contains(id) || id == last by {
            if ids.contains(id) {
                let i = choose|i: int| 0 <= i < ids.len() && ids[i] == id;
                if i < ids.len() - 1 {
                    assert(rest[i] == id);
                }
            }
            if rest.contains(id) {
                let i = choose|i: int| 0 <= i < rest.len() && rest[i] == id;
                assert(ids[i] == id);
            }
            if id == last {
                assert(ids[ids.len() - 1] == id);
            }
        }
        assert(!rest.contains(last)) by {
            if rest.contains(last) {
                let i = choose|i: int| 0 <= i < rest.len() && rest[i] == last;
                assert(ids[i] < ids[ids.len() - 1]);
            }
        }
        if gone.contains(last) {
            let fewer = gone.remove(last);
            lemma_filter_outside_len(rest, fewer);
            lemma_filter_ascending(rest, outside(gone));
            lemma_filter_characterized(rest, outside(fewer), rest.filter(outside(gone)));
        } else {
            lemma_filter_outside_len(rest, gone);
        }
    }
}

} // verus!
