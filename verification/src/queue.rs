//! The per-agent task queue: its items, their lifecycle
//! (pending → processing → done | failed) and the table that holds them,
//! with every query and update of the store stated over the table's rows.

use vstd::prelude::*;
use crate::clock::{in_plain_years, micros_of_rfc3339, micros_to_rfc3339, new_item_id, rfc3339_of_micros, rfc3339_to_micros, uuid_v4_text};
use crate::text::{chars_of, contains, contains_chars, eq_chars, has_line, has_line_chars, push_chars, push_str, string_of};

verus! {

/// Where an item stands in its lifecycle.
#[derive(Debug, Clone, Copy, PartialEq, Eq, Structural)]
pub enum QueueStatus {
    Pending,
    Processing,
    Done,
    Failed,
    /// Read from a stored name that is none of the four: shown as pending,
    /// but taken by no query on the stored status.
    Unrecognized,
}

impl QueueStatus {
    /// The name under which a status is stored.
    pub open spec fn text(self) -> Seq<char> {
        match self {
            QueueStatus::Pending => "pending"@,
            QueueStatus::Processing => "processing"@,
            QueueStatus::Done => "done"@,
            QueueStatus::Failed => "failed"@,
            QueueStatus::Unrecognized => Seq::empty(),
        }
    }

    /// The name under which a status is stored (empty for an
    /// unrecognized one, which is never stored).
    pub fn as_str(&self) -> (s: &'static str)
        ensures
            s@ == self.text(),
    {
        proof {
            reveal_strlit("");
        }
        match self {
            QueueStatus::Pending => "pending",
            QueueStatus::Processing => "processing",
            QueueStatus::Done => "done",
            QueueStatus::Failed => "failed",
            QueueStatus::Unrecognized => "",
        }
    }

    /// The status stored under `s`, or the error that names `s`.
    pub fn try_from(s: &str) -> (r: Result<QueueStatus, String>)
        ensures
            match r {
                Ok(st) => st.text() == s@ && st != QueueStatus::Unrecognized,
                Err(e) => {
                    &&& forall|st: QueueStatus| st != QueueStatus::Unrecognized ==> st.text() != s@
                    &&& e@ == "Unknown queue status: "@ + s@
                },
            },
    {
        let v = chars_of(s);
        if eq_chars(&v, &chars_of("pending")) {
            Ok(QueueStatus::Pending)
        } else if eq_chars(&v, &chars_of("processing")) {
            Ok(QueueStatus::Processing)
        } else if eq_chars(&v, &chars_of("done")) {
            Ok(QueueStatus::Done)
        } else if eq_chars(&v, &chars_of("failed")) {
            Ok(QueueStatus::Failed)
        } else {
            let mut e = chars_of("Unknown queue status: ");
            push_chars(&mut e, &v);
            assert forall|st: QueueStatus| st != QueueStatus::Unrecognized implies st.text() != s@ by {
                match st {
                    QueueStatus::Pending => {},
                    QueueStatus::Processing => {},
                    QueueStatus::Done => {},
                    QueueStatus::Failed => {},
                    QueueStatus::Unrecognized => {},
                }
            }
            Err(string_of(&e))
        }
    }
}

/// Distinct statuses are stored under distinct names.
pub proof fn lemma_status_text_injective(a: QueueStatus, b: QueueStatus)
    ensures
        a.text() == b.text() <==> a == b,
{
    reveal_strlit("pending");
    reveal_strlit("processing");
    reveal_strlit("done");
    reveal_strlit("failed");
    if a != b {
        if a == QueueStatus::Unrecognized || b == QueueStatus::Unrecognized {
            assert(a.text().len() != b.text().len());
        } else {
            match (a, b) {
                (QueueStatus::Pending, QueueStatus::Processing) => { assert(a.text()[1] != b.text()[1]); },
                (QueueStatus::Processing, QueueStatus::Pending) => { assert(a.text()[1] != b.text()[1]); },
                _ => { assert(a.text()[0] != b.text()[0]); },
            }
        }
    }
}


/// One queued task. Times are microseconds since the Unix epoch, UTC.
#[derive(Debug)]
pub struct QueueItem {
    pub id: String,
    pub agent: String,
    pub task: String,
    pub context: Option<String>,
    pub from_agent: Option<String>,
    /// Lower number = higher priority.
    pub priority: i32,
    pub status: QueueStatus,
    pub created_at: i64,
    pub started_at: Option<i64>,
    pub finished_at: Option<i64>,
    pub result: Option<String>,
    pub error: Option<String>,
}

/// A request to queue a task for an agent.
#[derive(Debug)]
pub struct EnqueueRequest {
    pub task: String,
    pub context: Option<String>,
    pub from_agent: Option<String>,
    pub priority: Option<i32>,
}

/// A copy of an optional text.
pub fn copy_text(s: &Option<String>) -> (r: Option<String>)
    ensures
        r == *s,
{
    match s {
        Some(t) => Some(t.clone()),
        None => None,
    }
}

impl QueueItem {
    /// A copy of the item, field for field.
    pub fn copy(&self) -> (r: QueueItem)
        ensures
            r == *self,
    {
        QueueItem {
            id: self.id.clone(),
            agent: self.agent.clone(),
            task: self.task.clone(),
            context: copy_text(&self.context),
            from_agent: copy_text(&self.from_agent),
            priority: self.priority,
            status: self.status,
            created_at: self.created_at,
            started_at: self.started_at,
            finished_at: self.finished_at,
            result: copy_text(&self.result),
            error: copy_text(&self.error),
        }
    }

    /// The context, or the empty text where there is none.
    pub open spec fn context_text(self) -> Seq<char> {
        match self.context {
            Some(c) => c@,
            None => Seq::empty(),
        }
    }
}

/// Why the table refused a change.
#[derive(Debug)]
pub enum QueueError {
    /// An item with this id is already queued.
    DuplicateId(String),
    /// No pending item has this id.
    NotCancellable(String),
}

impl QueueError {
    /// The message the error is reported with.
    pub open spec fn message_text(&self) -> Seq<char> {
        match self {
            QueueError::DuplicateId(_) => "Failed to insert queue item"@,
            QueueError::NotCancellable(id) => "Queue item '"@ + id@ + "' not found or not in pending state"@,
        }
    }

    /// The message the error is reported with.
    pub fn message(&self) -> (s: String)
        ensures
            s@ == self.message_text(),
    {
        match self {
            QueueError::DuplicateId(_) => "Failed to insert queue item".to_owned(),
            QueueError::NotCancellable(id) => {
                let mut v = chars_of("Queue item '");
                push_str(&mut v, id.as_str());
                push_str(&mut v, "' not found or not in pending state");
                string_of(&v)
            },
        }
    }
}

/// The order in which a listing presents items.
#[derive(Debug, Clone, Copy, PartialEq, Eq, Structural)]
pub enum ListOrder {
    /// Lowest priority number first, then oldest first, then first stored.
    PriorityFifo,
    /// Newest first, then first stored.
    NewestFirst,
}

/// Whether row `i` (item `a`) comes before row `j` (item `b`) in `order`.
pub open spec fn ranks_before(order: ListOrder, a: QueueItem, i: int, b: QueueItem, j: int) -> bool {
    match order {
        ListOrder::PriorityFifo => {
            ||| a.priority < b.priority
            ||| a.priority == b.priority && a.created_at < b.created_at
            ||| a.priority == b.priority && a.created_at == b.created_at && i < j
        },
        ListOrder::NewestFirst => {
            ||| a.created_at > b.created_at
            ||| a.created_at == b.created_at && i < j
        },
    }
}

fn comes_before(order: ListOrder, a: &QueueItem, i: usize, b: &QueueItem, j: usize) -> (r: bool)
    ensures
        r == ranks_before(order, *a, i as int, *b, j as int),
{
    match order {
        ListOrder::PriorityFifo => a.priority < b.priority || (a.priority == b.priority && (
        a.created_at < b.created_at || (a.created_at == b.created_at && i < j))),
        ListOrder::NewestFirst => a.created_at > b.created_at || (a.created_at == b.created_at && i
            < j),
    }
}

/// `idx` lists, in `order`, exactly the rows that `keep` marks, each once.
pub open spec fn is_listing(rows: Seq<QueueItem>, keep: Seq<bool>, order: ListOrder, idx: Seq<usize>) -> bool {
    &&& rows.len() <= usize::MAX
    &&& forall|k: int| 0 <= k < idx.len() ==> (#[trigger] idx[k]) < rows.len() && keep[idx[k] as int]
    &&& forall|i: int| 0 <= i < rows.len() && #[trigger] keep[i] ==> idx.contains(i as usize)
    &&& forall|k1: int, k2: int|
        #![trigger idx[k1], idx[k2]]
        0 <= k1 < k2 < idx.len() ==> ranks_before(
            order,
            rows[idx[k1] as int],
            idx[k1] as int,
            rows[idx[k2] as int],
            idx[k2] as int,
        )
}

/// The rows at the positions `idx`, in that order.
pub open spec fn listed(rows: Seq<QueueItem>, idx: Seq<usize>) -> Seq<QueueItem> {
    idx.map_values(|i: usize| rows[i as int])
}

/// Positions of the rows that `keep` marks, ordered by `order`.
fn order_rows(rows: &Vec<QueueItem>, keep: &Vec<bool>, order: ListOrder) -> (idx: Vec<usize>)
    requires
        keep.len() == rows.len(),
    ensures
        is_listing(rows@, keep@, order, idx@),
{
    let mut idx: Vec<usize> = Vec::new();
    let mut i: usize = 0;
    while i < rows.len()
        invariant
            i <= rows.len() == keep.len(),
            forall|k: int| 0 <= k < idx.len() ==> (#[trigger] idx@[k]) < i && keep@[idx@[k] as int],
            forall|t: int| 0 <= t < i && #[trigger] keep@[t] ==> idx@.contains(t as usize),
            forall|k1: int, k2: int|
                #![trigger idx@[k1], idx@[k2]]
                0 <= k1 < k2 < idx.len() ==> ranks_before(
                    order,
                    rows@[idx@[k1] as int],
                    idx@[k1] as int,
                    rows@[idx@[k2] as int],
                    idx@[k2] as int,
                ),
        decreases rows.len() - i,
    {
        if keep[i] {
            let mut p: usize = 0;
            while p < idx.len() && comes_before(order, &rows[idx[p]], idx[p], &rows[i], i)
                invariant
                    p <= idx.len(),
                    i < rows.len(),
                    forall|k: int| 0 <= k < idx.len() ==> (#[trigger] idx@[k]) < i,
                    forall|k: int|
                        0 <= k < p ==> ranks_before(
                            order,
                            rows@[#[trigger] idx@[k] as int],
                            idx@[k] as int,
                            rows@[i as int],
                            i as int,
                        ),
                decreases idx.len() - p,
            {
                p += 1;
            }
            let ghost before = idx@;
            idx.insert(p, i);
            proof {
                assert(idx@ == before.insert(p as int, i));
                assert forall|k: int| 0 <= k < idx.len() implies (#[trigger] idx@[k]) < i + 1
                    && keep@[idx@[k] as int] by {
                    if k < p {
                        assert(idx@[k] == before[k]);
                    } else if k > p {
                        assert(idx@[k] == before[k - 1]);
                    }
                }
                assert forall|t: int| 0 <= t < i + 1 && #[trigger] keep@[t] implies idx@.contains(
                    t as usize,
                ) by {
                    if t == i {
                        assert(idx@[p as int] == i);
                    } else {
                        let k = choose|k: int| 0 <= k < before.len() && before[k] == t as usize;
                        if k < p {
                            assert(idx@[k] == before[k]);
                        } else {
                            assert(idx@[k + 1] == before[k]);
                        }
                    }
                }
                assert forall|k1: int, k2: int|
                    #![trigger idx@[k1], idx@[k2]]
                    0 <= k1 < k2 < idx.len() implies ranks_before(
                        order,
                        rows@[idx@[k1] as int],
                        idx@[k1] as int,
                        rows@[idx@[k2] as int],
                        idx@[k2] as int,
                    ) by {
                    if k2 < p {
                        assert(idx@[k1] == before[k1] && idx@[k2] == before[k2]);
                    } else if k1 > p {
                        assert(idx@[k1] == before[k1 - 1] && idx@[k2] == before[k2 - 1]);
                    } else if k1 < p && k2 > p {
                        assert(idx@[k1] == before[k1] && idx@[k2] == before[k2 - 1]);
                    } else if k1 == p {
                        assert(idx@[k2] == before[k2 - 1]);
                        let a = rows@[i as int];
                        let b = rows@[before[p as int] as int];
                        assert(!ranks_before(order, b, before[p as int] as int, a, i as int));
                        if k2 - 1 > p {
                            assert(ranks_before(order, b, before[p as int] as int, rows@[before[k2 - 1] as int], before[k2 - 1] as int));
                        }
                    } else {
                        assert(idx@[k1] == before[k1]);
                    }
                }
            }
        }
        i += 1;
    }
    idx
}


/// How many entries of `keep` are set.
pub open spec fn count_marked(keep: Seq<bool>) -> nat
    decreases keep.len(),
{
    if keep.len() == 0 {
        0
    } else {
        count_marked(keep.drop_last()) + if keep.last() {
            1nat
        } else {
            0nat
        }
    }
}

/// A pending item of `agent`.
pub open spec fn pending_for(r: QueueItem, agent: Seq<char>) -> bool {
    r.agent@ == agent && r.status == QueueStatus::Pending
}

/// An item of `agent` whose stored status is named `status`, where given.
pub open spec fn agent_status_keeps(r: QueueItem, agent: Seq<char>, status: Option<Seq<char>>) -> bool {
    &&& r.agent@ == agent
    &&& match status {
        Some(s) => r.status != QueueStatus::Unrecognized && r.status.text() == s,
        None => true,
    }
}

/// An item whose context holds `project: <project>` as a substring and,
/// where a task id is given, has a line that trims to `task_id: <task_id>`.
pub open spec fn project_keeps(r: QueueItem, project: Seq<char>, task_id: Option<Seq<char>>) -> bool {
    &&& contains(r.context_text(), "project: "@ + project)
    &&& match task_id {
        Some(t) => has_line(r.context_text(), "task_id: "@ + t),
        None => true,
    }
}

/// A processing item that started before `cutoff`.
pub open spec fn is_stale(r: QueueItem, cutoff: int) -> bool {
    &&& r.status == QueueStatus::Processing
    &&& match r.started_at {
        Some(t) => t < cutoff,
        None => false,
    }
}

/// Row `i` is the item that `agent` takes next: pending, and ahead of
/// every other pending item of the agent.
pub open spec fn is_next_for(rows: Seq<QueueItem>, agent: Seq<char>, i: int) -> bool {
    &&& 0 <= i < rows.len()
    &&& pending_for(rows[i], agent)
    &&& forall|j: int|
        0 <= j < rows.len() && j != i && #[trigger] pending_for(rows[j], agent) ==> ranks_before(
            ListOrder::PriorityFifo,
            rows[i],
            i,
            rows[j],
            j,
        )
}

/// No two rows share an id.
pub open spec fn ids_distinct(rows: Seq<QueueItem>) -> bool {
    forall|i: int, j: int|
        #![trigger rows[i], rows[j]]
        0 <= i < j < rows.len() ==> rows[i].id@ != rows[j].id@
}

/// The item that a request becomes when queued under `id` at `now`.
pub open spec fn is_new_item(item: QueueItem, id: String, agent: Seq<char>, req: EnqueueRequest, now: int) -> bool {
    &&& item.id == id
    &&& item.agent@ == agent
    &&& item.task == req.task
    &&& item.context == req.context
    &&& item.from_agent == req.from_agent
    &&& item.priority == match req.priority {
        Some(p) => p,
        None => 0i32,
    }
    &&& item.status == QueueStatus::Pending
    &&& item.created_at == now
    &&& item.started_at.is_none()
    &&& item.finished_at.is_none()
    &&& item.result.is_none()
    &&& item.error.is_none()
}

/// The view of an optional text.
pub open spec fn opt_view(s: Option<&str>) -> Option<Seq<char>> {
    match s {
        Some(t) => Some(t@),
        None => None,
    }
}

/// Item `r` after it is moved to `status` at `now`, with `note` as its
/// result (done) or its error (failed).
pub open spec fn transition(r: QueueItem, status: QueueStatus, note: Option<String>, now: int) -> QueueItem {
    match status {
        QueueStatus::Processing => QueueItem { status, started_at: Some(now as i64), ..r },
        QueueStatus::Done => QueueItem { status, finished_at: Some(now as i64), result: note, ..r },
        QueueStatus::Failed => QueueItem { status, finished_at: Some(now as i64), error: note, ..r },
        QueueStatus::Pending | QueueStatus::Unrecognized => QueueItem { status, ..r },
    }
}

/// `new` is `old` with every item whose id is `id` moved to `status`.
pub open spec fn marked(old: Seq<QueueItem>, new: Seq<QueueItem>, id: Seq<char>, status: QueueStatus, note: Option<String>, now: int) -> bool {
    &&& new.len() == old.len()
    &&& forall|i: int|
        0 <= i < old.len() ==> #[trigger] new[i] == if old[i].id@ == id {
            transition(old[i], status, note, now)
        } else {
            old[i]
        }
}

/// Some row is an item of `agent` in processing.
pub open spec fn has_processing_item(rows: Seq<QueueItem>, agent: Seq<char>) -> bool {
    exists|j: int| 0 <= j < rows.len() && (#[trigger] rows[j]).status == QueueStatus::Processing && rows[j].agent@ == agent
}

/// Some name in `names` is `name`.
pub open spec fn names_hold(names: Seq<String>, name: Seq<char>) -> bool {
    exists|k: int| 0 <= k < names.len() && (#[trigger] names[k])@ == name
}

/// The queue's rows in the order they were stored; ids are unique.
pub struct QueueTable {
    items: Vec<QueueItem>,
}

impl View for QueueTable {
    type V = Seq<QueueItem>;

    closed spec fn view(&self) -> Seq<QueueItem> {
        self.items@
    }
}

impl QueueTable {
    pub open spec fn wf(&self) -> bool {
        ids_distinct(self@)
    }

    /// An empty table.
    pub fn new() -> (t: QueueTable)
        ensures
            t@ == Seq::<QueueItem>::empty(),
            t.wf(),
    {
        QueueTable { items: Vec::new() }
    }

    /// A table of the given rows, refused where two share an id.
    pub fn from_items(items: Vec<QueueItem>) -> (r: Result<QueueTable, QueueError>)
        ensures
            r is Ok <==> ids_distinct(items@),
            r matches Ok(t) ==> t@ == items@ && t.wf(),
            r matches Err(e) ==> e matches QueueError::DuplicateId(d) && exists|i: int, j: int|
                0 <= i < j < items@.len() && items@[i].id@ == items@[j].id@ && d@ == items@[j].id@,
    {
        let mut j: usize = 0;
        while j < items.len()
            invariant
                j <= items.len(),
                forall|a: int, b: int|
                    #![trigger items@[a], items@[b]]
                    0 <= a < b < j ==> items@[a].id@ != items@[b].id@,
            decreases items.len() - j,
        {
            let mut i: usize = 0;
            while i < j
                invariant
                    i <= j < items.len(),
                    forall|a: int| 0 <= a < i ==> (#[trigger] items@[a]).id@ != items@[j as int].id@,
                decreases j - i,
            {
                if items[i].id == items[j].id {
                    return Err(QueueError::DuplicateId(items[j].id.clone()));
                }
                i += 1;
            }
            j += 1;
        }
        Ok(QueueTable { items })
    }

    /// The rows, in the order they were stored.
    pub fn items(&self) -> (r: &Vec<QueueItem>)
        ensures
            r@ == self@,
    {
        &self.items
    }

    fn has_id(&self, id: &String) -> (b: bool)
        ensures
            b <==> exists|i: int| 0 <= i < self@.len() && (#[trigger] self@[i]).id@ == id@,
    {
        let mut i: usize = 0;
        while i < self.items.len()
            invariant
                i <= self.items.len(),
                forall|k: int| 0 <= k < i ==> (#[trigger] self.items@[k]).id@ != id@,
            decreases self.items.len() - i,
        {
            if self.items[i].id == *id {
                return true;
            }
            i += 1;
        }
        false
    }

    /// Queues `req` for `agent` under `id` at `now`, refused where `id` is
    /// already taken.
    pub fn enqueue_at(&mut self, id: String, agent: &str, req: EnqueueRequest, now: i64) -> (r: Result<QueueItem, QueueError>)
        requires
            old(self).wf(),
        ensures
            final(self).wf(),
            (exists|i: int| 0 <= i < old(self)@.len() && (#[trigger] old(self)@[i]).id@ == id@) ==> {
                &&& r matches Err(QueueError::DuplicateId(d)) && d@ == id@
                &&& final(self)@ == old(self)@
            },
            !(exists|i: int| 0 <= i < old(self)@.len() && (#[trigger] old(self)@[i]).id@ == id@) ==> {
                &&& r matches Ok(item)
                &&& is_new_item(item, id, agent@, req, now as int)
                &&& final(self)@ == old(self)@.push(item)
            },
    {
        if self.has_id(&id) {
            return Err(QueueError::DuplicateId(id));
        }
        let priority = match req.priority {
            Some(p) => p,
            None => 0,
        };
        let item = QueueItem {
            id,
            agent: agent.to_owned(),
            task: req.task,
            context: req.context,
            from_agent: req.from_agent,
            priority,
            status: QueueStatus::Pending,
            created_at: now,
            started_at: None,
            finished_at: None,
            result: None,
            error: None,
        };
        let stored = item.copy();
        let ghost before = self.items@;
        self.items.push(stored);
        proof {
            assert forall|a: int, b: int|
                #![trigger self.items@[a], self.items@[b]]
                0 <= a < b < self.items@.len() implies self.items@[a].id@ != self.items@[b].id@ by {
                if b == before.len() {
                    assert(self.items@[a] == before[a]);
                } else {
                    assert(self.items@[a] == before[a] && self.items@[b] == before[b]);
                }
            }
        }
        Ok(item)
    }

    /// The item that `agent` takes next: its pending item with the lowest
    /// priority number, the oldest among those, the first stored among those.
    pub fn peek_next(&self, agent: &str) -> (r: Option<QueueItem>)
        ensures
            r is None <==> forall|i: int| 0 <= i < self@.len() ==> !pending_for(#[trigger] self@[i], agent@),
            r matches Some(x) ==> exists|i: int| is_next_for(self@, agent@, i) && x == self@[i],
    {
        let who = agent.to_owned();
        let ghost rows = self@;
        let mut best: Option<usize> = None;
        let mut i: usize = 0;
        while i < self.items.len()
            invariant
                i <= self.items.len(),
                rows == self.items@,
                who@ == agent@,
                best is None ==> forall|k: int| 0 <= k < i ==> !pending_for(#[trigger] rows[k], agent@),
                best matches Some(b) ==> {
                    &&& b < i
                    &&& pending_for(rows[b as int], agent@)
                    &&& forall|k: int|
                        0 <= k < i && k != b && #[trigger] pending_for(rows[k], agent@) ==> ranks_before(
                            ListOrder::PriorityFifo,
                            rows[b as int],
                            b as int,
                            rows[k],
                            k,
                        )
                },
            decreases self.items.len() - i,
        {
            let it = &self.items[i];
            if it.agent == who && it.status == QueueStatus::Pending {
                match best {
                    None => {
                        best = Some(i);
                    },
                    Some(b) => {
                        if comes_before(ListOrder::PriorityFifo, it, i, &self.items[b], b) {
                            best = Some(i);
                        }
                    },
                }
            }
            i += 1;
        }
        match best {
            None => None,
            Some(b) => Some(self.items[b].copy()),
        }
    }

    /// Sets `status` (and the time and text that go with it) on the items
    /// with `id`.
    fn set_status(&mut self, id: &str, status: QueueStatus, note: Option<&str>, now: i64) -> (r: Ghost<Option<String>>)
        requires
            old(self).wf(),
        ensures
            final(self).wf(),
            note matches Some(n) ==> r@ matches Some(s) && s@ == n@,
            note is None ==> r@ is None,
            marked(old(self)@, final(self)@, id@, status, r@, now as int),
    {
        let target = id.to_owned();
        let text: Option<String> = match note {
            Some(n) => Some(n.to_owned()),
            None => None,
        };
        let ghost before = self.items@;
        let mut i: usize = 0;
        while i < self.items.len()
            invariant
                i <= self.items.len() == before.len(),
                target@ == id@,
                ids_distinct(before),
                forall|k: int| i <= k < before.len() ==> #[trigger] self.items@[k] == before[k],
                forall|k: int|
                    0 <= k < i ==> #[trigger] self.items@[k] == if before[k].id@ == id@ {
                        transition(before[k], status, text, now as int)
                    } else {
                        before[k]
                    },
            decreases self.items.len() - i,
        {
            if self.items[i].id == target {
                let mut it = self.items[i].copy();
                it.status = status;
                match status {
                    QueueStatus::Processing => {
                        it.started_at = Some(now);
                    },
                    QueueStatus::Done => {
                        it.finished_at = Some(now);
                        it.result = copy_text(&text);
                    },
                    QueueStatus::Failed => {
                        it.finished_at = Some(now);
                        it.error = copy_text(&text);
                    },
                    QueueStatus::Pending | QueueStatus::Unrecognized => {},
                }
                self.items.set(i, it);
            }
            i += 1;
        }
        proof {
            assert forall|a: int, b: int|
                #![trigger self.items@[a], self.items@[b]]
                0 <= a < b < self.items@.len() implies self.items@[a].id@ != self.items@[b].id@ by {
                assert(self.items@[a].id == before[a].id);
                assert(self.items@[b].id == before[b].id);
                assert(before[a].id@ != before[b].id@);
            }
        }
        Ghost(text)
    }

    /// Marks the items with `id` as claimed at `now`.
    pub fn mark_processing(&mut self, id: &str, now: i64)
        requires
            old(self).wf(),
        ensures
            final(self).wf(),
            marked(old(self)@, final(self)@, id@, QueueStatus::Processing, None, now as int),
    {
        let _ = self.set_status(id, QueueStatus::Processing, None, now);
    }

    /// Marks the items with `id` as done at `now`, with `result`.
    pub fn mark_done(&mut self, id: &str, result: &str, now: i64)
        requires
            old(self).wf(),
        ensures
            final(self).wf(),
            exists|s: String|
                s@ == result@ && marked(old(self)@, final(self)@, id@, QueueStatus::Done, Some(s), now as int),
    {
        let g = self.set_status(id, QueueStatus::Done, Some(result), now);
        assert(g@ matches Some(s) && s@ == result@);
    }

    /// Marks the items with `id` as failed at `now`, with `error`.
    pub fn mark_failed(&mut self, id: &str, error: &str, now: i64)
        requires
            old(self).wf(),
        ensures
            final(self).wf(),
            exists|s: String|
                s@ == error@ && marked(old(self)@, final(self)@, id@, QueueStatus::Failed, Some(s), now as int),
    {
        let g = self.set_status(id, QueueStatus::Failed, Some(error), now);
        assert(g@ matches Some(s) && s@ == error@);
    }

    fn collect_rows(&self, idx: &Vec<usize>) -> (r: Vec<QueueItem>)
        requires
            forall|k: int| 0 <= k < idx.len() ==> #[trigger] idx@[k] < self@.len(),
        ensures
            r@ == listed(self@, idx@),
    {
        let mut r: Vec<QueueItem> = Vec::new();
        let mut k: usize = 0;
        while k < idx.len()
            invariant
                k <= idx.len(),
                forall|t: int| 0 <= t < idx.len() ==> #[trigger] idx@[t] < self.items@.len(),
                r@ == listed(self@, idx@.take(k as int)),
            decreases idx.len() - k,
        {
            r.push(self.items[idx[k]].copy());
            k += 1;
            assert(r@ =~= listed(self@, idx@.take(k as int)));
        }
        assert(idx@.take(idx.len() as int) =~= idx@);
        r
    }

    /// The items of `agent`, those whose status is named `status` where one
    /// is given, lowest priority number first, then oldest first.
    pub fn list(&self, agent: &str, status: Option<&str>) -> (r: Vec<QueueItem>)
        ensures
            exists|idx: Seq<usize>|
                is_listing(
                    self@,
                    self@.map_values(|x: QueueItem| agent_status_keeps(x, agent@, opt_view(status))),
                    ListOrder::PriorityFifo,
                    idx,
                ) && r@ == listed(self@, idx),
    {
        let who = agent.to_owned();
        let wanted: Option<Result<QueueStatus, String>> = match status {
            Some(s) => Some(QueueStatus::try_from(s)),
            None => None,
        };
        let ghost keep_spec = self@.map_values(|x: QueueItem| agent_status_keeps(x, agent@, opt_view(status)));
        let mut keep: Vec<bool> = Vec::new();
        let mut i: usize = 0;
        while i < self.items.len()
            invariant
                i <= self.items.len(),
                who@ == agent@,
                keep_spec == self@.map_values(|x: QueueItem| agent_status_keeps(x, agent@, opt_view(status))),
                self@ == self.items@,
                status is None <==> wanted is None,
                wanted matches Some(Ok(w)) ==> status matches Some(s) && w.text() == s@ && w != QueueStatus::Unrecognized,
                wanted matches Some(Err(_)) ==> status matches Some(s) && forall|st: QueueStatus| st != QueueStatus::Unrecognized ==> st.text() != s@,
                keep@ == keep_spec.take(i as int),
            decreases self.items.len() - i,
        {
            let it = &self.items[i];
            let k = it.agent == who && match &wanted {
                None => true,
                Some(Ok(w)) => it.status == *w,
                Some(Err(_)) => false,
            };
            proof {
                if let Some(Ok(w)) = wanted {
                    lemma_status_text_injective(it.status, w);
                }
            }
            keep.push(k);
            i += 1;
            assert(keep@ =~= keep_spec.take(i as int));
        }
        assert(keep_spec.take(self.items.len() as int) =~= keep_spec);
        let idx = order_rows(&self.items, &keep, ListOrder::PriorityFifo);
        self.collect_rows(&idx)
    }

    /// How many pending items `agent` has.
    pub fn pending_count(&self, agent: &str) -> (n: u64)
        ensures
            n == count_marked(self@.map_values(|x: QueueItem| pending_for(x, agent@))),
    {
        let who = agent.to_owned();
        let ghost marks = self@.map_values(|x: QueueItem| pending_for(x, agent@));
        let mut n: usize = 0;
        let mut i: usize = 0;
        while i < self.items.len()
            invariant
                i <= self.items.len(),
                who@ == agent@,
                self@ == self.items@,
                marks == self@.map_values(|x: QueueItem| pending_for(x, agent@)),
                n == count_marked(marks.take(i as int)),
                n <= i,
            decreases self.items.len() - i,
        {
            let it = &self.items[i];
            assert(marks.take(i + 1).drop_last() =~= marks.take(i as int));
            if it.agent == who && it.status == QueueStatus::Pending {
                n += 1;
            }
            i += 1;
        }
        assert(marks.take(self.items.len() as int) =~= marks);
        n as u64
    }

    /// Removes the pending item with `id`; refused where there is none.
    pub fn cancel(&mut self, id: &str) -> (r: Result<(), QueueError>)
        requires
            old(self).wf(),
        ensures
            final(self).wf(),
            r is Ok <==> exists|i: int|
                0 <= i < old(self)@.len() && (#[trigger] old(self)@[i]).id@ == id@ && old(self)@[i].status
                    == QueueStatus::Pending,
            r matches Err(e) ==> e matches QueueError::NotCancellable(x) && x@ == id@,
            final(self)@ == old(self)@.filter(|x: QueueItem| !(x.id@ == id@ && x.status == QueueStatus::Pending)),
    {
        let target = id.to_owned();
        let ghost before = self.items@;
        let ghost pred = |x: QueueItem| !(x.id@ == id@ && x.status == QueueStatus::Pending);
        let mut kept: Vec<QueueItem> = Vec::new();
        let mut found = false;
        let mut i: usize = 0;
        while i < self.items.len()
            invariant
                i <= self.items.len(),
                before == self.items@,
                target@ == id@,
                ids_distinct(before),
                pred == |x: QueueItem| !(x.id@ == id@ && x.status == QueueStatus::Pending),
                kept@ == before.take(i as int).filter(pred),
                ids_distinct(kept@),
                forall|k: int| 0 <= k < kept@.len() ==> exists|j: int| 0 <= j < i && #[trigger] kept@[k] == #[trigger] before[j],
                found <==> exists|j: int| 0 <= j < i && !pred(#[trigger] before[j]),
            decreases self.items.len() - i,
        {
            let it = &self.items[i];
            assert(before.take(i + 1).drop_last() =~= before.take(i as int));
            reveal_with_fuel(Seq::<_>::filter, 1);
            if it.id == target && it.status == QueueStatus::Pending {
                found = true;
            } else {
                let ghost prev = kept@;
                kept.push(it.copy());
                proof {
                    assert forall|a: int, b: int|
                        #![trigger kept@[a], kept@[b]]
                        0 <= a < b < kept@.len() implies kept@[a].id@ != kept@[b].id@ by {
                        if b == prev.len() {
                            let j = choose|j: int| 0 <= j < i && #[trigger] prev[a] == #[trigger] before[j];
                            assert(kept@[a] == prev[a]);
                        } else {
                            assert(kept@[a] == prev[a] && kept@[b] == prev[b]);
                        }
                    }
                    assert forall|k: int| 0 <= k < kept@.len() implies exists|j: int| 0 <= j < i + 1 && #[trigger] kept@[k] == #[trigger] before[j] by {
                        if k == prev.len() {
                            assert(kept@[k] == before[i as int]);
                        } else {
                            assert(kept@[k] == prev[k]);
                            let j = choose|j: int| 0 <= j < i && #[trigger] prev[k] == #[trigger] before[j];
                        }
                    }
                }
            }
            i += 1;
        }
        assert(before.take(self.items.len() as int) =~= before);
        self.items = kept;
        if found {
            Ok(())
        } else {
            Err(QueueError::NotCancellable(target))
        }
    }

    /// The items whose context holds `project: <project>` (and, where a
    /// task id is given, a line that trims to `task_id: <task_id>`),
    /// newest first.
    pub fn query_by_project(&self, project: &str, task_id: Option<&str>) -> (r: Vec<QueueItem>)
        ensures
            exists|idx: Seq<usize>|
                is_listing(
                    self@,
                    self@.map_values(|x: QueueItem| project_keeps(x, project@, opt_view(task_id))),
                    ListOrder::NewestFirst,
                    idx,
                ) && r@ == listed(self@, idx),
    {
        let mut needle = chars_of("project: ");
        push_str(&mut needle, project);
        let task_needle: Option<Vec<char>> = match task_id {
            Some(t) => {
                let mut v = chars_of("task_id: ");
                push_str(&mut v, t);
                Some(v)
            },
            None => None,
        };
        let ghost keep_spec = self@.map_values(|x: QueueItem| project_keeps(x, project@, opt_view(task_id)));
        let mut keep: Vec<bool> = Vec::new();
        let mut i: usize = 0;
        while i < self.items.len()
            invariant
                i <= self.items.len(),
                needle@ == "project: "@ + project@,
                task_id is None <==> task_needle is None,
                task_needle matches Some(v) ==> task_id matches Some(t) && v@ == "task_id: "@ + t@,
                keep_spec == self@.map_values(|x: QueueItem| project_keeps(x, project@, opt_view(task_id))),
                self@ == self.items@,
                keep@ == keep_spec.take(i as int),
            decreases self.items.len() - i,
        {
            let ctx: Vec<char> = match &self.items[i].context {
                Some(c) => chars_of(c.as_str()),
                None => Vec::new(),
            };
            assert(ctx@ == self.items@[i as int].context_text());
            let k = contains_chars(&ctx, &needle) && match &task_needle {
                Some(v) => has_line_chars(&ctx, v),
                None => true,
            };
            keep.push(k);
            i += 1;
            assert(keep@ =~= keep_spec.take(i as int));
        }
        assert(keep_spec.take(self.items.len() as int) =~= keep_spec);
        let idx = order_rows(&self.items, &keep, ListOrder::NewestFirst);
        self.collect_rows(&idx)
    }

    /// Returns the processing items that started before `cutoff` to pending,
    /// clearing their start time; gives how many there were.
    pub fn reset_stale_before(&mut self, cutoff: i64) -> (n: u64)
        requires
            old(self).wf(),
        ensures
            final(self).wf(),
            reset_applied(old(self)@, final(self)@, n, cutoff as int),
    {
        let ghost before = self.items@;
        let ghost marks = before.map_values(|x: QueueItem| is_stale(x, cutoff as int));
        let ghost after = before.map_values(|x: QueueItem| if is_stale(x, cutoff as int) {
            QueueItem { status: QueueStatus::Pending, started_at: None, ..x }
        } else {
            x
        });
        let mut n: usize = 0;
        let mut i: usize = 0;
        while i < self.items.len()
            invariant
                i <= self.items.len() == before.len(),
                ids_distinct(before),
                marks == before.map_values(|x: QueueItem| is_stale(x, cutoff as int)),
                after == before.map_values(|x: QueueItem| if is_stale(x, cutoff as int) {
                    QueueItem { status: QueueStatus::Pending, started_at: None, ..x }
                } else {
                    x
                }),
                forall|k: int| i <= k < before.len() ==> #[trigger] self.items@[k] == before[k],
                forall|k: int| 0 <= k < i ==> #[trigger] self.items@[k] == after[k],
                n == count_marked(marks.take(i as int)),
                n <= i,
            decreases self.items.len() - i,
        {
            assert(marks.take(i + 1).drop_last() =~= marks.take(i as int));
            let stale = self.items[i].status == QueueStatus::Processing && match self.items[i].started_at {
                Some(t) => t < cutoff,
                None => false,
            };
            if stale {
                let mut it = self.items[i].copy();
                it.status = QueueStatus::Pending;
                it.started_at = None;
                self.items.set(i, it);
                n += 1;
            }
            i += 1;
        }
        assert(marks.take(before.len() as int) =~= marks);
        assert(self.items@ =~= after);
        proof {
            assert forall|a: int, b: int|
                #![trigger self.items@[a], self.items@[b]]
                0 <= a < b < self.items@.len() implies self.items@[a].id@ != self.items@[b].id@ by {
                assert(self.items@[a].id == before[a].id);
                assert(self.items@[b].id == before[b].id);
            }
        }
        n as u64
    }

    /// Queues `req` for `agent` under a fresh random id at `now`.
    pub fn enqueue(&mut self, agent: &str, req: EnqueueRequest, now: i64) -> (r: Result<QueueItem, QueueError>)
        requires
            old(self).wf(),
        ensures
            final(self).wf(),
            r matches Ok(item) ==> {
                &&& uuid_v4_text(item.id@)
                &&& is_new_item(item, item.id, agent@, req, now as int)
                &&& final(self)@ == old(self)@.push(item)
                &&& forall|i: int| 0 <= i < old(self)@.len() ==> (#[trigger] old(self)@[i]).id@ != item.id@
            },
            r matches Err(e) ==> {
                &&& e matches QueueError::DuplicateId(d) && uuid_v4_text(d@) && exists|i: int|
                    0 <= i < old(self)@.len() && (#[trigger] old(self)@[i]).id@ == d@
                &&& final(self)@ == old(self)@
            },
    {
        let id = new_item_id();
        self.enqueue_at(id, agent, req, now)
    }

    /// Returns to pending the processing items that started more than
    /// `stale_minutes` before `now`; gives how many there were.
    pub fn reset_stale(&mut self, stale_minutes: i64, now: i64) -> (n: u64)
        requires
            old(self).wf(),
            minutes_in_range(stale_minutes as int),
        ensures
            final(self).wf(),
            reset_applied(old(self)@, final(self)@, n, stale_cutoff_spec(now as int, stale_minutes as int)),
    {
        let cutoff = stale_cutoff(now, stale_minutes);
        self.reset_stale_before(cutoff)
    }

    /// The distinct agents that have an item in processing, each once.
    pub fn processing_agents(&self) -> (r: Vec<String>)
        ensures
            forall|a: int, b: int| 0 <= a < b < r@.len() ==> (#[trigger] r@[a])@ != (#[trigger] r@[b])@,
            forall|k: int| 0 <= k < r@.len() ==> has_processing_item(self@, (#[trigger] r@[k])@),
            forall|i: int| 0 <= i < self@.len() && (#[trigger] self@[i]).status == QueueStatus::Processing ==> names_hold(r@, self@[i].agent@),
    {
        let mut r: Vec<String> = Vec::new();
        let mut i: usize = 0;
        while i < self.items.len()
            invariant
                i <= self.items.len(),
                forall|a: int, b: int| 0 <= a < b < r@.len() ==> (#[trigger] r@[a])@ != (#[trigger] r@[b])@,
                forall|k: int| 0 <= k < r@.len() ==> has_processing_item(self@, (#[trigger] r@[k])@),
                forall|j: int| 0 <= j < i && (#[trigger] self@[j]).status == QueueStatus::Processing ==> names_hold(r@, self@[j].agent@),
            decreases self.items.len() - i,
        {
            if self.items[i].status == QueueStatus::Processing {
                let mut seen = false;
                let mut k: usize = 0;
                while k < r.len()
                    invariant
                        k <= r.len(),
                        i < self.items.len(),
                        seen ==> names_hold(r@, self@[i as int].agent@),
                        !seen ==> forall|t: int| 0 <= t < k ==> (#[trigger] r@[t])@ != self@[i as int].agent@,
                    decreases r.len() - k,
                {
                    if r[k] == self.items[i].agent {
                        seen = true;
                    }
                    k += 1;
                }
                let ghost prev = r@;
                if !seen {
                    r.push(self.items[i].agent.clone());
                    proof {
                        assert forall|a: int, b: int| 0 <= a < b < r@.len() implies (#[trigger] r@[a])@ != (#[trigger] r@[b])@ by {
                            if b == prev.len() {
                                assert(r@[a] == prev[a]);
                            } else {
                                assert(r@[a] == prev[a] && r@[b] == prev[b]);
                            }
                        }
                        assert forall|k2: int| 0 <= k2 < r@.len() implies has_processing_item(self@, (#[trigger] r@[k2])@) by {
                            if k2 == prev.len() {
                                assert(self@[i as int].status == QueueStatus::Processing);
                            } else {
                                assert(r@[k2] == prev[k2]);
                            }
                        }
                        assert(r@[prev.len() as int]@ == self@[i as int].agent@);
                    }
                }
                proof {
                    assert forall|j: int| 0 <= j < i + 1 && (#[trigger] self@[j]).status == QueueStatus::Processing implies names_hold(r@, self@[j].agent@) by {
                        if j < i {
                            let k3 = choose|k3: int| 0 <= k3 < prev.len() && (#[trigger] prev[k3])@ == self@[j].agent@;
                            assert(r@[k3] == prev[k3]);
                        }
                    }
                }
            }
            i += 1;
        }
        r
    }

    /// The agents that `queue reset` goes over: where `agent` is `all`,
    /// those with an item in processing (as `processing_agents` gives
    /// them); otherwise `agent` alone.
    pub fn agents_to_reset(&self, agent: &str) -> (r: Vec<String>)
        ensures
            agent@ == "all"@ ==> {
                &&& forall|a: int, b: int| 0 <= a < b < r@.len() ==> (#[trigger] r@[a])@ != (#[trigger] r@[b])@
                &&& forall|k: int| 0 <= k < r@.len() ==> has_processing_item(self@, (#[trigger] r@[k])@)
                &&& forall|i: int|
                    0 <= i < self@.len() && (#[trigger] self@[i]).status == QueueStatus::Processing
                        ==> names_hold(r@, self@[i].agent@)
            },
            agent@ != "all"@ ==> r@.len() == 1 && r@[0]@ == agent@,
    {
        if eq_chars(&chars_of(agent), &chars_of("all")) {
            self.processing_agents()
        } else {
            let mut r: Vec<String> = Vec::new();
            r.push(agent.to_owned());
            r
        }
    }

} // impl QueueTable


/// `new` is `old` with its stale items (processing, started before
/// `cutoff`) returned to pending without a start time, and `n` counts them.
pub open spec fn reset_applied(old: Seq<QueueItem>, new: Seq<QueueItem>, n: u64, cutoff: int) -> bool {
    &&& new == old.map_values(|x: QueueItem| if is_stale(x, cutoff) {
        QueueItem { status: QueueStatus::Pending, started_at: None, ..x }
    } else {
        x
    })
    &&& n == count_marked(old.map_values(|x: QueueItem| is_stale(x, cutoff)))
}

/// The spans that `chrono::TimeDelta::minutes` accepts: `minutes * 60`
/// seconds within `i64::MAX / 1000`.
pub open spec fn minutes_in_range(minutes: int) -> bool {
    -9223372036854775 <= minutes * 60 <= 9223372036854775
}

/// `now` less `minutes` minutes, in microseconds, held to the range of `i64`.
pub open spec fn stale_cutoff_spec(now: int, minutes: int) -> int {
    let c = now - minutes * 60_000_000;
    if c < i64::MIN {
        i64::MIN as int
    } else if c > i64::MAX {
        i64::MAX as int
    } else {
        c
    }
}

/// The time before which a processing item counts as stale: `now` less
/// `minutes` minutes, in microseconds, held to the range of `i64`.
pub fn stale_cutoff(now: i64, minutes: i64) -> (c: i64)
    requires
        minutes_in_range(minutes as int),
    ensures
        c == stale_cutoff_spec(now as int, minutes as int),
{
    let span: i128 = (minutes as i128) * 60_000_000;
    let c: i128 = (now as i128) - span;
    if c < (i64::MIN as i128) {
        i64::MIN
    } else if c > (i64::MAX as i128) {
        i64::MAX
    } else {
        c as i64
    }
}

/// A queue row as the store keeps it: the status by its name and the times
/// as RFC 3339 text.
#[derive(Debug)]
pub struct StoredRow {
    pub id: String,
    pub agent: String,
    pub task: String,
    pub context: Option<String>,
    pub from_agent: Option<String>,
    pub priority: i32,
    pub status: String,
    pub created_at: String,
    pub started_at: Option<String>,
    pub finished_at: Option<String>,
    pub result: Option<String>,
    pub error: Option<String>,
}

/// The status stored under `s`; any other name reads as unrecognized.
pub open spec fn stored_status(s: Seq<char>) -> QueueStatus {
    if exists|st: QueueStatus| st != QueueStatus::Unrecognized && st.text() == s {
        choose|st: QueueStatus| st != QueueStatus::Unrecognized && st.text() == s
    } else {
        QueueStatus::Unrecognized
    }
}

/// The time stored as `t`, where there is one and it parses.
pub open spec fn stored_time(t: Option<String>) -> Option<i64> {
    match t {
        Some(s) => micros_of_rfc3339(s@),
        None => None,
    }
}

/// The item that `row` holds, read at `now`: a status name that is none of
/// the four reads as unrecognized, a creation time that does not parse reads as `now`, other
/// times that do not parse read as absent.
pub open spec fn decoded(row: StoredRow, now: int, item: QueueItem) -> bool {
    &&& item.id == row.id
    &&& item.agent == row.agent
    &&& item.task == row.task
    &&& item.context == row.context
    &&& item.from_agent == row.from_agent
    &&& item.priority == row.priority
    &&& item.status == stored_status(row.status@)
    &&& item.created_at == match micros_of_rfc3339(row.created_at@) {
        Some(t) => t as int,
        None => now,
    }
    &&& item.started_at == stored_time(row.started_at)
    &&& item.finished_at == stored_time(row.finished_at)
    &&& item.result == row.result
    &&& item.error == row.error
}

fn read_time(t: &Option<String>) -> (r: Option<i64>)
    ensures
        r == stored_time(*t),
{
    match t {
        Some(s) => rfc3339_to_micros(s.as_str()),
        None => None,
    }
}

fn write_time(t: Option<i64>) -> (r: Option<Option<String>>)
    ensures
        match t {
            None => r == Some(None::<String>),
            Some(m) => match rfc3339_of_micros(m) {
                Some(text) => r matches Some(Some(s)) && s@ == text,
                None => r is None,
            },
        },
        times_plain(t) ==> (r matches Some(w) ==> stored_time(w) == t),
{
    match t {
        None => Some(None),
        Some(m) => match micros_to_rfc3339(m) {
            Some(s) => Some(Some(s)),
            None => None,
        },
    }
}

impl QueueItem {
    /// The item that a stored row holds, read at `now`.
    pub fn from_stored(row: StoredRow, now: i64) -> (item: QueueItem)
        ensures
            decoded(row, now as int, item),
    {
        let status = match QueueStatus::try_from(row.status.as_str()) {
            Ok(st) => st,
            Err(_) => QueueStatus::Unrecognized,
        };
        proof {
            if exists|st: QueueStatus| st != QueueStatus::Unrecognized && st.text() == row.status@ {
                let c = choose|st: QueueStatus| st != QueueStatus::Unrecognized && st.text() == row.status@;
                lemma_status_text_injective(c, status);
            }
        }
        let created_at = match rfc3339_to_micros(row.created_at.as_str()) {
            Some(t) => t,
            None => now,
        };
        let started_at = read_time(&row.started_at);
        let finished_at = read_time(&row.finished_at);
        QueueItem {
            id: row.id,
            agent: row.agent,
            task: row.task,
            context: row.context,
            from_agent: row.from_agent,
            priority: row.priority,
            status,
            created_at,
            started_at,
            finished_at,
            result: row.result,
            error: row.error,
        }
    }

    /// The row under which the store keeps this item; `None` where its
    /// status is unrecognized (such a row is kept as it was read) or a time
    /// is outside the range that has an RFC 3339 text.
    pub fn to_stored(&self) -> (r: Option<StoredRow>)
        ensures
            r is Some <==> {
                &&& self.status != QueueStatus::Unrecognized
                &&& rfc3339_of_micros(self.created_at) is Some
                &&& (self.started_at matches Some(t) ==> rfc3339_of_micros(t) is Some)
                &&& (self.finished_at matches Some(t) ==> rfc3339_of_micros(t) is Some)
            },
            r matches Some(row) ==> {
                &&& decoded_as_text(*self, row)
                &&& item_times_plain(*self) ==> reads_back_times(*self, row)
            },
    {
        let created = micros_to_rfc3339(self.created_at);
        let started = write_time(self.started_at);
        let finished = write_time(self.finished_at);
        if self.status == QueueStatus::Unrecognized {
            return None;
        }
        match (created, started, finished) {
            (Some(created_at), Some(started_at), Some(finished_at)) => Some(
                StoredRow {
                    id: self.id.clone(),
                    agent: self.agent.clone(),
                    task: self.task.clone(),
                    context: copy_text(&self.context),
                    from_agent: copy_text(&self.from_agent),
                    priority: self.priority,
                    status: self.status.as_str().to_owned(),
                    created_at,
                    started_at,
                    finished_at,
                    result: copy_text(&self.result),
                    error: copy_text(&self.error),
                },
            ),
            _ => None,
        }
    }
}

/// An optional time whose year `to_rfc3339` writes with four digits.
pub open spec fn times_plain(t: Option<i64>) -> bool {
    match t {
        Some(m) => in_plain_years(m as int),
        None => true,
    }
}

/// Every time of `item` has a year written with four digits.
pub open spec fn item_times_plain(item: QueueItem) -> bool {
    &&& in_plain_years(item.created_at as int)
    &&& times_plain(item.started_at)
    &&& times_plain(item.finished_at)
}

/// The times stored in `row` parse back as those of `item`.
pub open spec fn reads_back_times(item: QueueItem, row: StoredRow) -> bool {
    &&& micros_of_rfc3339(row.created_at@) == Some(item.created_at)
    &&& stored_time(row.started_at) == item.started_at
    &&& stored_time(row.finished_at) == item.finished_at
}

/// `row` is the stored form of `item`: the same texts, the status by its
/// name, the times as their RFC 3339 texts.
pub open spec fn decoded_as_text(item: QueueItem, row: StoredRow) -> bool {
    &&& row.id == item.id
    &&& row.agent == item.agent
    &&& row.task == item.task
    &&& row.context == item.context
    &&& row.from_agent == item.from_agent
    &&& row.priority == item.priority
    &&& row.status@ == item.status.text()
    &&& Some(row.created_at@) == rfc3339_of_micros(item.created_at)
    &&& match item.started_at {
        Some(t) => row.started_at matches Some(s) && Some(s@) == rfc3339_of_micros(t),
        None => row.started_at is None,
    }
    &&& match item.finished_at {
        Some(t) => row.finished_at matches Some(s) && Some(s@) == rfc3339_of_micros(t),
        None => row.finished_at is None,
    }
    &&& row.result == item.result
    &&& row.error == item.error
}

} // verus!
