//! Laws that tie the queue's operations together, stated over the rows
//! that the operations' own contracts speak of.

use vstd::prelude::*;
use crate::queue::{
    agent_status_keeps, count_marked, is_listing, is_new_item, is_next_for, is_stale,
    lemma_status_text_injective, marked, pending_for, project_keeps, ranks_before,
    reset_applied, EnqueueRequest, ListOrder, QueueItem, QueueStatus,
    decoded, decoded_as_text, reads_back_times, stored_status, StoredRow,
};

verus! {

/// Rows listed by a listing are distinct positions.
proof fn lemma_listing_distinct(rows: Seq<QueueItem>, keep: Seq<bool>, order: ListOrder, idx: Seq<usize>, a: int, b: int)
    requires
        is_listing(rows, keep, order, idx),
        0 <= a < idx.len(),
        0 <= b < idx.len(),
        a != b,
    ensures
        idx[a] != idx[b],
{
    if a < b {
        assert(ranks_before(order, rows[idx[a] as int], idx[a] as int, rows[idx[b] as int], idx[b] as int));
    } else {
        assert(ranks_before(order, rows[idx[b] as int], idx[b] as int, rows[idx[a] as int], idx[a] as int));
    }
}

/// A listing has as many entries as rows it keeps.
pub proof fn lemma_listing_len(rows: Seq<QueueItem>, keep: Seq<bool>, order: ListOrder, idx: Seq<usize>)
    requires
        keep.len() == rows.len(),
        is_listing(rows, keep, order, idx),
    ensures
        idx.len() == count_marked(keep),
    decreases rows.len(),
{
    if rows.len() == 0 {
        if idx.len() > 0 {
            assert(idx[0] < rows.len());
        }
    } else {
        let n = rows.len() - 1;
        let rows2 = rows.drop_last();
        let keep2 = keep.drop_last();
        if keep[n] {
            assert(idx.contains(n as usize));
            let p = choose|p: int| 0 <= p < idx.len() && idx[p] == n as usize;
            let idx2 = idx.remove(p);
            assert forall|k: int| 0 <= k < idx2.len() implies (#[trigger] idx2[k]) < rows2.len() && keep2[idx2[k] as int] by {
                let kk = if k < p { k } else { k + 1 };
                assert(idx2[k] == idx[kk]);
                lemma_listing_distinct(rows, keep, order, idx, kk, p);
            }
            assert forall|i: int| 0 <= i < rows2.len() && #[trigger] keep2[i] implies idx2.contains(i as usize) by {
                assert(keep[i]);
                assert(idx.contains(i as usize));
                let k = choose|k: int| 0 <= k < idx.len() && idx[k] == i as usize;
                if k < p {
                    assert(idx2[k] == idx[k]);
                } else {
                    assert(k != p);
                    assert(idx2[k - 1] == idx[k]);
                }
            }
            assert forall|k1: int, k2: int|
                #![trigger idx2[k1], idx2[k2]]
                0 <= k1 < k2 < idx2.len() implies ranks_before(
                    order,
                    rows2[idx2[k1] as int],
                    idx2[k1] as int,
                    rows2[idx2[k2] as int],
                    idx2[k2] as int,
                ) by {
                let a = if k1 < p { k1 } else { k1 + 1 };
                let b = if k2 < p { k2 } else { k2 + 1 };
                assert(idx2[k1] == idx[a] && idx2[k2] == idx[b]);
                assert(idx[a] < rows.len() && idx[b] < rows.len());
                assert(ranks_before(order, rows[idx[a] as int], idx[a] as int, rows[idx[b] as int], idx[b] as int));
                lemma_listing_distinct(rows, keep, order, idx, a, p);
                lemma_listing_distinct(rows, keep, order, idx, b, p);
            }
            lemma_listing_len(rows2, keep2, order, idx2);
        } else {
            assert forall|k: int| 0 <= k < idx.len() implies (#[trigger] idx[k]) < rows2.len() && keep2[idx[k] as int] by {
            }
            assert forall|k1: int, k2: int|
                #![trigger idx[k1], idx[k2]]
                0 <= k1 < k2 < idx.len() implies ranks_before(
                    order,
                    rows2[idx[k1] as int],
                    idx[k1] as int,
                    rows2[idx[k2] as int],
                    idx[k2] as int,
                ) by {
                assert(idx[k1] < rows2.len() && idx[k2] < rows2.len());
            }
            assert forall|i: int| 0 <= i < rows2.len() && #[trigger] keep2[i] implies idx.contains(i as usize) by {
                assert(keep[i]);
            }
            lemma_listing_len(rows2, keep2, order, idx);
        }
    }
}

proof fn lemma_pending_name(x: QueueItem, agent: Seq<char>)
    ensures
        agent_status_keeps(x, agent, Some("pending"@)) == pending_for(x, agent),
{
    lemma_status_text_injective(x.status, QueueStatus::Pending);
}

/// The item that `peek_next` gives an agent is the head of the agent's
/// pending listing, and there is none exactly when that listing is empty.
pub proof fn law_next_is_head_of_pending_list(rows: Seq<QueueItem>, agent: Seq<char>, idx: Seq<usize>)
    requires
        is_listing(
            rows,
            rows.map_values(|x: QueueItem| agent_status_keeps(x, agent, Some("pending"@))),
            ListOrder::PriorityFifo,
            idx,
        ),
    ensures
        idx.len() == 0 <==> forall|i: int| 0 <= i < rows.len() ==> !pending_for(#[trigger] rows[i], agent),
        idx.len() > 0 ==> is_next_for(rows, agent, idx[0] as int),
{
    let keep = rows.map_values(|x: QueueItem| agent_status_keeps(x, agent, Some("pending"@)));
    assert forall|i: int| 0 <= i < rows.len() implies keep[i] == pending_for(#[trigger] rows[i], agent) by {
        lemma_pending_name(rows[i], agent);
    }
    if idx.len() == 0 {
        assert forall|i: int| 0 <= i < rows.len() implies !pending_for(#[trigger] rows[i], agent) by {
            if pending_for(rows[i], agent) {
                assert(keep[i]);
                assert(idx.contains(i as usize));
            }
        }
    } else {
        let h = idx[0] as int;
        assert(keep[h]);
        assert forall|j: int|
            0 <= j < rows.len() && j != h && #[trigger] pending_for(rows[j], agent) implies ranks_before(
                ListOrder::PriorityFifo,
                rows[h],
                h,
                rows[j],
                j,
            ) by {
            assert(keep[j]);
            assert(idx.contains(j as usize));
            let k = choose|k: int| 0 <= k < idx.len() && idx[k] == j as usize;
            assert(k != 0);
            assert(ranks_before(ListOrder::PriorityFifo, rows[idx[0] as int], idx[0] as int, rows[idx[k] as int], idx[k] as int));
        }
        assert(!(forall|i: int| 0 <= i < rows.len() ==> !pending_for(#[trigger] rows[i], agent)));
    }
}

/// An agent's pending count is the length of its pending listing.
pub proof fn law_pending_count_is_pending_list_len(rows: Seq<QueueItem>, agent: Seq<char>, idx: Seq<usize>)
    requires
        is_listing(
            rows,
            rows.map_values(|x: QueueItem| agent_status_keeps(x, agent, Some("pending"@))),
            ListOrder::PriorityFifo,
            idx,
        ),
    ensures
        idx.len() == count_marked(rows.map_values(|x: QueueItem| pending_for(x, agent))),
{
    let keep = rows.map_values(|x: QueueItem| agent_status_keeps(x, agent, Some("pending"@)));
    let marks = rows.map_values(|x: QueueItem| pending_for(x, agent));
    assert forall|i: int| 0 <= i < rows.len() implies keep[i] == marks[i] by {
        lemma_pending_name(rows[i], agent);
    }
    assert(keep =~= marks);
    lemma_listing_len(rows, keep, ListOrder::PriorityFifo, idx);
}

/// Queuing a request adds one to the pending count of the agent it is for
/// and leaves every other agent's count as it was.
pub proof fn law_enqueue_adds_one_pending(
    rows: Seq<QueueItem>,
    item: QueueItem,
    id: String,
    agent: Seq<char>,
    req: EnqueueRequest,
    now: int,
    other: Seq<char>,
)
    requires
        is_new_item(item, id, agent, req, now),
    ensures
        count_marked(rows.push(item).map_values(|x: QueueItem| pending_for(x, other))) == count_marked(
            rows.map_values(|x: QueueItem| pending_for(x, other)),
        ) + if other == agent {
            1nat
        } else {
            0nat
        },
{
    let m = rows.map_values(|x: QueueItem| pending_for(x, other));
    let m2 = rows.push(item).map_values(|x: QueueItem| pending_for(x, other));
    assert(m2.drop_last() =~= m);
}

proof fn lemma_filter_keeps_all(rows: Seq<QueueItem>, pred: spec_fn(QueueItem) -> bool)
    requires
        forall|i: int| 0 <= i < rows.len() ==> pred(#[trigger] rows[i]),
    ensures
        rows.filter(pred) == rows,
    decreases rows.len(),
{
    if rows.len() > 0 {
        let init = rows.drop_last();
        assert forall|i: int| 0 <= i < init.len() implies pred(#[trigger] init[i]) by {
            assert(init[i] == rows[i]);
        }
        lemma_filter_keeps_all(init, pred);
        init.lemma_filter_push(rows.last(), pred);
        assert(init.push(rows.last()) =~= rows);
    } else {
        reveal_with_fuel(Seq::<_>::filter, 1);
        assert(rows.filter(pred) =~= rows);
    }
}

/// Cancelling an item right after it is queued gives back the rows as
/// they were: the new item is pending, so the cancel succeeds, and its id
/// is new, so nothing else goes.
pub proof fn law_cancel_undoes_enqueue(
    rows: Seq<QueueItem>,
    item: QueueItem,
    id: String,
    agent: Seq<char>,
    req: EnqueueRequest,
    now: int,
)
    requires
        is_new_item(item, id, agent, req, now),
        forall|i: int| 0 <= i < rows.len() ==> (#[trigger] rows[i]).id@ != id@,
    ensures
        exists|i: int|
            0 <= i < rows.push(item).len() && (#[trigger] rows.push(item)[i]).id@ == id@
                && rows.push(item)[i].status == QueueStatus::Pending,
        rows.push(item).filter(|x: QueueItem| !(x.id@ == id@ && x.status == QueueStatus::Pending)) == rows,
{
    let pred = |x: QueueItem| !(x.id@ == id@ && x.status == QueueStatus::Pending);
    assert(rows.push(item)[rows.len() as int] == item);
    lemma_filter_keeps_all(rows, pred);
    rows.lemma_filter_push(item, pred);
}

/// A claimed item is no agent's next item.
pub proof fn law_claimed_item_is_not_next(
    old: Seq<QueueItem>,
    new: Seq<QueueItem>,
    id: Seq<char>,
    note: Option<String>,
    now: int,
    agent: Seq<char>,
    i: int,
)
    requires
        marked(old, new, id, QueueStatus::Processing, note, now),
        is_next_for(new, agent, i),
    ensures
        new[i].id@ != id,
{
}

proof fn lemma_count_none(keep: Seq<bool>)
    requires
        forall|i: int| 0 <= i < keep.len() ==> !keep[i],
    ensures
        count_marked(keep) == 0,
    decreases keep.len(),
{
    if keep.len() > 0 {
        lemma_count_none(keep.drop_last());
    }
}

/// Resetting stale items a second time with the same cutoff changes
/// nothing and resets none.
pub proof fn law_reset_stale_idempotent(
    rows: Seq<QueueItem>,
    mid: Seq<QueueItem>,
    last: Seq<QueueItem>,
    n1: u64,
    n2: u64,
    cutoff: int,
)
    requires
        reset_applied(rows, mid, n1, cutoff),
        reset_applied(mid, last, n2, cutoff),
    ensures
        n2 == 0,
        last == mid,
{
    let marks = mid.map_values(|x: QueueItem| is_stale(x, cutoff));
    assert forall|i: int| 0 <= i < marks.len() implies !marks[i] by {
        assert(mid[i] == if is_stale(rows[i], cutoff) {
            QueueItem { status: QueueStatus::Pending, started_at: None, ..rows[i] }
        } else {
            rows[i]
        });
    }
    lemma_count_none(marks);
    assert(last =~= mid);
}

/// The items found for a project and task are among those found for the
/// project alone.
pub proof fn law_task_query_within_project_query(
    rows: Seq<QueueItem>,
    project: Seq<char>,
    task_id: Seq<char>,
    with_task: Seq<usize>,
    all: Seq<usize>,
    k: int,
)
    requires
        is_listing(
            rows,
            rows.map_values(|x: QueueItem| project_keeps(x, project, Some(task_id))),
            ListOrder::NewestFirst,
            with_task,
        ),
        is_listing(
            rows,
            rows.map_values(|x: QueueItem| project_keeps(x, project, None)),
            ListOrder::NewestFirst,
            all,
        ),
        0 <= k < with_task.len(),
    ensures
        all.contains(with_task[k]),
{
    let i = with_task[k] as int;
    let keep = rows.map_values(|x: QueueItem| project_keeps(x, project, None));
    assert(keep[i]);
}

proof fn lemma_agree_upto(rows: Seq<QueueItem>, keep: Seq<bool>, order: ListOrder, a: Seq<usize>, b: Seq<usize>, k: int)
    requires
        is_listing(rows, keep, order, a),
        is_listing(rows, keep, order, b),
        a.len() == b.len(),
        0 <= k <= a.len(),
    ensures
        forall|t: int| 0 <= t < k ==> a[t] == b[t],
    decreases k,
{
    if k > 0 {
        lemma_agree_upto(rows, keep, order, a, b, k - 1);
        let t = k - 1;
        assert(keep[a[t] as int]);
        assert(b.contains(a[t]));
        let m = choose|m: int| 0 <= m < b.len() && b[m] == a[t];
        assert(keep[b[t] as int]);
        assert(a.contains(b[t]));
        let n = choose|n: int| 0 <= n < a.len() && a[n] == b[t];
        if m < t {
            assert(a[m] == b[m]);
            lemma_listing_distinct(rows, keep, order, a, m, t);
        }
        if n < t {
            assert(a[n] == b[n]);
            lemma_listing_distinct(rows, keep, order, b, n, t);
        }
        if m > t && n > t {
            assert(ranks_before(order, rows[b[t] as int], b[t] as int, rows[b[m] as int], b[m] as int));
            assert(ranks_before(order, rows[a[t] as int], a[t] as int, rows[a[n] as int], a[n] as int));
        }
    }
}

/// A table has one listing for a filter and an order: the contracts of
/// `list` and `query_by_project`, which say that their result follows some
/// listing, fix the result.
pub proof fn law_listing_unique(rows: Seq<QueueItem>, keep: Seq<bool>, order: ListOrder, a: Seq<usize>, b: Seq<usize>)
    requires
        keep.len() == rows.len(),
        is_listing(rows, keep, order, a),
        is_listing(rows, keep, order, b),
    ensures
        a == b,
{
    lemma_listing_len(rows, keep, order, a);
    lemma_listing_len(rows, keep, order, b);
    lemma_agree_upto(rows, keep, order, a, b, a.len() as int);
    assert(a =~= b);
}


/// An item written to the store and read back is the same item, where the
/// row was written with each time parsing back as itself (as `to_stored`
/// promises for years written with four digits): the status comes back by
/// its name, and the reading time is not used.
pub proof fn law_stored_round_trip(item: QueueItem, row: StoredRow, now: int, back: QueueItem)
    requires
        decoded_as_text(item, row),
        reads_back_times(item, row),
        decoded(row, now, back),
    ensures
        back == item,
{
    assert(item.status.text() == row.status@);
    if exists|st: QueueStatus| st != QueueStatus::Unrecognized && st.text() == row.status@ {
        let c = choose|st: QueueStatus| st != QueueStatus::Unrecognized && st.text() == row.status@;
        lemma_status_text_injective(c, item.status);
    } else {
        if item.status != QueueStatus::Unrecognized {
            assert(item.status.text() == row.status@);
        }
    }
    assert(stored_status(row.status@) == item.status);
}

/// Marking items leaves every row's id, agent, task and context as they
/// were.
pub proof fn law_marking_keeps_contexts(
    old: Seq<QueueItem>,
    new: Seq<QueueItem>,
    id: Seq<char>,
    status: QueueStatus,
    note: Option<String>,
    now: int,
    i: int,
)
    requires
        marked(old, new, id, status, note, now),
        0 <= i < old.len(),
    ensures
        new.len() == old.len(),
        new[i].id == old[i].id,
        new[i].agent == old[i].agent,
        new[i].task == old[i].task,
        new[i].context == old[i].context,
{
    assert(new[i] == if old[i].id@ == id {
        crate::queue::transition(old[i], status, note, now)
    } else {
        old[i]
    });
}

/// Resetting stale items leaves every row's id, agent, task and context as
/// they were.
pub proof fn law_reset_keeps_contexts(old: Seq<QueueItem>, new: Seq<QueueItem>, n: u64, cutoff: int, i: int)
    requires
        reset_applied(old, new, n, cutoff),
        0 <= i < old.len(),
    ensures
        new.len() == old.len(),
        new[i].id == old[i].id,
        new[i].agent == old[i].agent,
        new[i].task == old[i].task,
        new[i].context == old[i].context,
{
}

/// Cancelling keeps every row but the cancelled pending one, as it was:
/// a row whose id differs, or that is not pending, is still in the table.
pub proof fn law_cancel_keeps_others(old: Seq<QueueItem>, id: Seq<char>, i: int)
    requires
        0 <= i < old.len(),
        !(old[i].id@ == id && old[i].status == QueueStatus::Pending),
    ensures
        old.filter(|x: QueueItem| !(x.id@ == id && x.status == QueueStatus::Pending)).contains(old[i]),
{
    let pred = |x: QueueItem| !(x.id@ == id && x.status == QueueStatus::Pending);
    old.lemma_filter_contains(pred, i);
}
} // verus!
