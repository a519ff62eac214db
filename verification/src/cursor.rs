//! Cursor pagination over the order index: the ids that follow the last id
//! of the page before.
//!
//! [`probe_after`] finds them with range queries over windows of growing
//! width, so that its work does not grow with the number of ids before the
//! cursor. [`walk_after`] finds the cursor's place and walks on from there.
//! Both return the same ids.

use vstd::prelude::*;
use crate::ids::{
    ascending, below, between, first_n, lemma_filter_ascending, lemma_filter_below_is_prefix,
    lemma_filter_characterized, lemma_filter_is_subrange, lemma_first_n_within, window,
};
use crate::order::{id_views, OrderIndex};

verus! {

/// The predicate that a cursor stands for: the ids greater than `last_id`,
/// or every id where `last_id` is 0.
pub open spec fn after_cursor(last_id: nat) -> spec_fn(nat) -> bool {
    |id: nat| last_id == 0 || id > last_id
}

/// The ids of the page that follows the cursor: the `limit` smallest ids
/// after it, or all ids after it where there are fewer.
pub open spec fn ids_after(order: Seq<nat>, last_id: nat, limit: nat) -> Seq<nat> {
    first_n(order.filter(after_cursor(last_id)), limit)
}

/// The ids of the page that follows a cursor are ids of the index, and lie
/// after the cursor.
pub proof fn lemma_ids_after_within(order: Seq<nat>, last_id: nat, limit: nat)
    requires
        ascending(order),
    ensures
        forall|id: nat| #[trigger]
            ids_after(order, last_id, limit).contains(id) ==> order.contains(id) && (last_id == 0
                || id > last_id),
{
    lemma_filter_ascending(order, after_cursor(last_id));
    lemma_first_n_within(order.filter(after_cursor(last_id)), limit);
}

/// `part` holds exactly the ids of `all` that are at least `from` and below
/// `bound`.
pub open spec fn holds_span(part: Seq<nat>, all: Seq<nat>, from: nat, bound: nat) -> bool {
    forall|id: nat|
        #![trigger part.contains(id)]
        #![trigger all.contains(id)]
        part.contains(id) <==> all.contains(id) && from <= id < bound
}

/// The ids of `all` that lie below `bound`, cut to `limit`, are the first
/// `limit` ids of `all`, once they are `limit` or more or `bound` lies above
/// every id of `all`.
pub proof fn lemma_probed_enough(all: Seq<nat>, probed: Seq<nat>, bound: nat, limit: nat)
    requires
        ascending(all),
        ascending(probed),
        holds_span(probed, all, 0, bound),
        probed.len() >= limit || forall|id: nat| all.contains(id) ==> id < bound,
    ensures
        first_n(probed, limit) == first_n(all, limit),
{
    lemma_filter_characterized(all, below(bound), probed);
    lemma_filter_below_is_prefix(all, bound);
    if probed.len() >= limit {
        assert(probed.take(limit as int) =~= all.take(limit as int));
    } else {
        lemma_filter_characterized(all, below(bound), all);
    }
}

/// Two ascending runs, the second above the first, make one ascending run
/// that holds the ids of both.
pub proof fn lemma_join_runs(head: Seq<nat>, tail: Seq<nat>, split: nat)
    requires
        ascending(head),
        ascending(tail),
        forall|id: nat| head.contains(id) ==> id < split,
        forall|id: nat| tail.contains(id) ==> id >= split,
    ensures
        ascending(head + tail),
        forall|id: nat| (head + tail).contains(id) <==> head.contains(id) || tail.contains(id),
{
    let whole = head + tail;
    assert forall|i: int, j: int| 0 <= i < j < whole.len() implies whole[i] < whole[j] by {
        if j < head.len() {
            assert(head[i] < head[j]);
        } else if i < head.len() {
            assert(head.contains(head[i]));
            assert(tail.contains(tail[j - head.len()]));
        } else {
            assert(tail[i - head.len()] < tail[j - head.len()]);
        }
    }
    assert forall|id: nat| whole.contains(id) <==> head.contains(id) || tail.contains(id) by {
        if whole.contains(id) {
            let k = choose|k: int| 0 <= k < whole.len() && whole[k] == id;
            if k < head.len() {
                assert(head[k] == id);
            } else {
                assert(tail[k - head.len()] == id);
            }
        }
        if head.contains(id) {
            let k = choose|k: int| 0 <= k < head.len() && head[k] == id;
            assert(whole[k] == id);
        }
        if tail.contains(id) {
            let k = choose|k: int| 0 <= k < tail.len() && tail[k] == id;
            assert(whole[head.len() + k] == id);
        }
    }
}

/// The ids of the page that follows the cursor, found by probing.
///
/// The first probe asks the index for the ids in a window of `limit`
/// consecutive numbers after the cursor. While the ids found are fewer than
/// `limit`, the next probe asks for the window that follows, twice as wide.
/// The search ends when `limit` ids are found or the last window has reached
/// the largest id of the index: gaps that removals left behind, however
/// wide, do not end it early.
pub fn probe_after(order: &OrderIndex, last_id: usize, limit: usize) -> (ids: Vec<usize>)
    requires
        order.wf(),
    ensures
        id_views(ids@) == ids_after(order@, last_id as nat, limit as nat),
{
    let mut fetched: Vec<usize> = Vec::new();
    let len = order.len();
    let ghost all = order@.filter(after_cursor(last_id as nat));
    proof {
        order.lemma_ids_fit();
        lemma_filter_ascending(order@, after_cursor(last_id as nat));
        assert(id_views(fetched@) =~= Seq::<nat>::empty());
    }
    if limit == 0 || len == 0 || last_id == usize::MAX {
        proof {
            if limit != 0 && all.len() > 0 {
                assert(all.contains(all[0]));
                assert(order@.contains(all[0]));
                let k = choose|k: int| 0 <= k < order@.len() && order@[k] == all[0];
                assert(order@[k] <= usize::MAX);
            }
            assert(ids_after(order@, last_id as nat, limit as nat) =~= Seq::<nat>::empty());
        }
        return fetched;
    }
    let top = order.nth(len - 1);
    let start: usize = if last_id == 0 {
        0
    } else {
        last_id + 1
    };
    proof {
        assert forall|id: nat| order@.contains(id) implies id <= top by {
            let k = choose|k: int| 0 <= k < order@.len() && order@[k] == id;
            if k < len - 1 {
                assert(order@[k] < order@[len - 1]);
            }
        }
        assert forall|id: nat| all.contains(id) <==> order@.contains(id) && id >= start by {
            assert(after_cursor(last_id as nat)(id) <==> id >= start);
        }
    }
    if start > top {
        proof {
            if all.len() > 0 {
                assert(all.contains(all[0]));
            }
            assert(ids_after(order@, last_id as nat, limit as nat) =~= Seq::<nat>::empty());
        }
        return fetched;
    }
    let mut lo: usize = start;
    let mut width: usize = limit;
    let mut exhausted = false;
    while fetched.len() < limit && !exhausted
        invariant
            order.wf(),
            ascending(order@),
            ascending(all),
            holds_span(all, order@, start as nat, (top + 1) as nat),
            start <= lo <= top,
            width >= 1,
            ascending(id_views(fetched@)),
            holds_span(
                id_views(fetched@),
                all,
                0,
                if exhausted {
                    (top + 1) as nat
                } else {
                    lo as nat
                },
            ),
        decreases top - lo + (if exhausted { 0int } else { 1 }),
    {
        let hi: usize = if width - 1 >= top - lo {
            top
        } else {
            lo + (width - 1)
        };
        let mut found = order.range(lo, hi);
        proof {
            let head = id_views(fetched@);
            let tail = id_views(found@);
            lemma_filter_ascending(order@, between(lo as nat, hi as nat));
            assert forall|id: nat| tail.contains(id) <==> all.contains(id) && lo <= id <= hi by {
                assert(tail.contains(id) <==> order@.contains(id) && between(
                    lo as nat,
                    hi as nat,
                )(id));
            }
            lemma_join_runs(head, tail, lo as nat);
            assert(id_views(fetched@ + found@) =~= head + tail);
            assert(holds_span(head + tail, all, 0, (hi + 1) as nat));
        }
        fetched.append(&mut found);
        if hi == top {
            exhausted = true;
        } else {
            lo = hi + 1;
        }
        width = if width > usize::MAX / 2 {
            usize::MAX
        } else {
            width * 2
        };
    }
    proof {
        let bound: nat = if exhausted {
            (top + 1) as nat
        } else {
            lo as nat
        };
        lemma_probed_enough(all, id_views(fetched@), bound, limit as nat);
    }
    let ghost probed = fetched@;
    fetched.truncate(limit);
    assert(id_views(fetched@) =~= first_n(id_views(probed), limit as nat));
    fetched
}

/// The ids of the page that follows the cursor, found by looking up the
/// cursor's place in the index and taking the ids that stand there.
pub fn walk_after(order: &OrderIndex, last_id: usize, limit: usize) -> (ids: Vec<usize>)
    requires
        order.wf(),
    ensures
        id_views(ids@) == ids_after(order@, last_id as nat, limit as nat),
{
    proof {
        order.lemma_ids_fit();
    }
    let from: usize = if last_id == 0 {
        0
    } else if last_id == usize::MAX {
        order.len()
    } else {
        order.rank(last_id + 1)
    };
    proof {
        assert forall|i: int| 0 <= i < order@.len() implies (after_cursor(last_id as nat)(
            #[trigger] order@[i],
        ) <==> from <= i < order@.len()) by {}
        lemma_filter_is_subrange(
            order@,
            after_cursor(last_id as nat),
            from as int,
            order@.len() as int,
        );
        assert(order@.subrange(from as int, order@.len() as int) =~= order@.skip(from as int));
    }
    order.window(from, limit)
}

} // verus!
