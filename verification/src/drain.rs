//! Draining an agent's queue: the prompt an item is run with, and the steps
//! of a drain run (take the next item, record how its run ended).

use vstd::prelude::*;
use crate::queue::{
    is_next_for, marked, pending_for, QueueItem, QueueStatus, QueueTable,
};
use crate::text::{
    chars_of, lines, push_chars, push_str, split_lines, starts_with, starts_with_chars, string_of,
    trim, trim_chars, views, copy_range,
};

verus! {

/// The value of the first line of `ctx` that, trimmed, starts with
/// `prefix`: the rest of that trimmed line, trimmed again.
pub open spec fn field_in(ls: Seq<Seq<char>>, prefix: Seq<char>) -> Option<Seq<char>>
    decreases ls.len(),
{
    if ls.len() == 0 {
        None
    } else if starts_with(trim(ls[0]), prefix) {
        Some(trim(trim(ls[0]).skip(prefix.len() as int)))
    } else {
        field_in(ls.drop_first(), prefix)
    }
}

/// The value that the context line `<prefix><value>` gives, if any.
pub open spec fn context_field(ctx: Seq<char>, prefix: Seq<char>) -> Option<Seq<char>> {
    field_in(lines(ctx), prefix)
}

/// The value of the first line of `ctx` that, trimmed, starts with `prefix`.
pub fn find_context_field(ctx: &Vec<char>, prefix: &str) -> (r: Option<Vec<char>>)
    ensures
        match r {
            Some(v) => context_field(ctx@, prefix@) == Some(v@),
            None => context_field(ctx@, prefix@) is None,
        },
{
    let p = chars_of(prefix);
    let ls = split_lines(ctx);
    let ghost all = views(ls@);
    let mut k: usize = 0;
    assert(all.skip(0) =~= all);
    while k < ls.len()
        invariant
            k <= ls.len(),
            all == views(ls@),
            all == lines(ctx@),
            p@ == prefix@,
            context_field(ctx@, prefix@) == field_in(all.skip(k as int), prefix@),
        decreases ls.len() - k,
    {
        let ghost rest = all.skip(k as int);
        assert(rest[0] == ls@[k as int]@);
        assert(rest.drop_first() =~= all.skip(k + 1));
        let t = trim_chars(&ls[k]);
        if starts_with_chars(&t, &p) {
            let tail = copy_range(&t, p.len(), t.len());
            assert(tail@ =~= t@.skip(p@.len() as int));
            return Some(trim_chars(&tail));
        }
        k += 1;
    }
    None
}

/// The guard written where an item's context names both its task and its
/// project.
pub open spec fn task_guard(tid: Seq<char>, proj: Seq<char>, id: Seq<char>) -> Seq<char> {
    "\n[TASK GUARD]\nYou are responsible for task `"@ + tid + "` in project `"@ + proj
        + "`.\n- In tasks.md, update ONLY the row with ID `"@ + tid
        + "` (set Status to `in-progress` when you start, `done` when you finish).\n- When calling queue_enqueue to hand off to the next agent, set `task_id` to the NEXT agent's task row ID from tasks.md \u{2014} NOT this queue item id `"@
        + id + "`.\n- tasks.md is at: ~/coding-projects/"@ + proj
        + "/openspec/changes/<change-id>/tasks.md\n- Read tasks.md first to confirm your task is not already `done`. If it is, output: SKIP: task "@
        + tid + " already done \u{2014} and stop.\n"@
}

/// The part of the prompt that an item's context gives.
pub open spec fn context_part(ctx: Seq<char>, id: Seq<char>) -> Seq<char> {
    let tid = context_field(ctx, "task_id: "@);
    let proj = context_field(ctx, "project: "@);
    "\nContext:\n"@ + ctx + "\n"@ + if tid is Some && proj is Some {
        task_guard(tid->0, proj->0, id)
    } else {
        Seq::empty()
    }
}

/// The prompt that an item of `agent` is run with.
pub open spec fn drain_prompt(agent: Seq<char>, item: QueueItem) -> Seq<char> {
    "[queue-drain:"@ + agent + " item:"@ + item.id@ + "]\n\nYour task:\n"@ + item.task@ + "\n"@
        + match item.context {
        Some(c) => context_part(c@, item.id@),
        None => Seq::empty(),
    } + match item.from_agent {
        Some(f) => "\nRequested by: "@ + f@ + "\n"@,
        None => Seq::empty(),
    } + "\nComplete the task above. Be thorough but concise in your response."@
}

fn push_guard(out: &mut Vec<char>, tid: &Vec<char>, proj: &Vec<char>, id: &str)
    ensures
        final(out)@ == old(out)@ + task_guard(tid@, proj@, id@),
{
    push_str(out, "\n[TASK GUARD]\nYou are responsible for task `");
    push_chars(out, tid);
    push_str(out, "` in project `");
    push_chars(out, proj);
    push_str(out, "`.\n- In tasks.md, update ONLY the row with ID `");
    push_chars(out, tid);
    push_str(out, "` (set Status to `in-progress` when you start, `done` when you finish).\n- When calling queue_enqueue to hand off to the next agent, set `task_id` to the NEXT agent's task row ID from tasks.md \u{2014} NOT this queue item id `");
    push_str(out, id);
    push_str(out, "`.\n- tasks.md is at: ~/coding-projects/");
    push_chars(out, proj);
    push_str(out, "/openspec/changes/<change-id>/tasks.md\n- Read tasks.md first to confirm your task is not already `done`. If it is, output: SKIP: task ");
    push_chars(out, tid);
    push_str(out, " already done \u{2014} and stop.\n");
    assert(out@ =~= old(out)@ + task_guard(tid@, proj@, id@));
}

/// The prompt that an item of `agent` is run with: its id and task, its
/// context with a task guard where the context names both a task and a
/// project, who asked for it, and the closing instruction.
pub fn build_drain_prompt(agent: &str, item: &QueueItem) -> (p: String)
    ensures
        p@ == drain_prompt(agent@, *item),
{
    let mut out: Vec<char> = Vec::new();
    push_str(&mut out, "[queue-drain:");
    push_str(&mut out, agent);
    push_str(&mut out, " item:");
    push_str(&mut out, item.id.as_str());
    push_str(&mut out, "]\n\nYour task:\n");
    push_str(&mut out, item.task.as_str());
    push_str(&mut out, "\n");
    let ghost head = out@;
    match &item.context {
        Some(c) => {
            let ctx = chars_of(c.as_str());
            push_str(&mut out, "\nContext:\n");
            push_chars(&mut out, &ctx);
            push_str(&mut out, "\n");
            let tid = find_context_field(&ctx, "task_id: ");
            let proj = find_context_field(&ctx, "project: ");
            match (tid, proj) {
                (Some(t), Some(p)) => {
                    push_guard(&mut out, &t, &p, item.id.as_str());
                },
                _ => {},
            }
            assert(out@ =~= head + context_part(c@, item.id@));
        },
        None => {
            assert(out@ =~= head + Seq::<char>::empty());
        },
    }
    let ghost mid = out@;
    match &item.from_agent {
        Some(f) => {
            push_str(&mut out, "\nRequested by: ");
            push_str(&mut out, f.as_str());
            push_str(&mut out, "\n");
            assert(out@ =~= mid + ("\nRequested by: "@ + f@ + "\n"@));
        },
        None => {
            assert(out@ =~= mid + Seq::<char>::empty());
        },
    }
    push_str(&mut out, "\nComplete the task above. Be thorough but concise in your response.");
    assert(out@ =~= drain_prompt(agent@, *item));
    string_of(&out)
}


/// A drain run over one agent's queue, taking at most `limit` items.
#[derive(Debug)]
pub struct DrainRun {
    pub agent: String,
    pub limit: usize,
    /// Items taken so far.
    pub drained: usize,
    /// The id of the item being run, between `next` and `finish_item`.
    pub current: Option<String>,
}

/// What the run asks for next.
#[derive(Debug)]
pub enum DrainAction {
    /// Run the agent on `prompt` for the item `item_id`, whose task is `task`.
    Run { item_id: String, task: String, prompt: String },
    /// Stop: the limit is reached or the queue holds nothing pending.
    Finish { drained: usize },
}

/// How an agent's run on an item ended.
#[derive(Debug)]
pub enum RunOutcome {
    /// The agent answered with this response.
    Succeeded(String),
    /// The agent failed with this message.
    Failed(String),
}

impl DrainRun {
    pub open spec fn inv(&self) -> bool {
        self.drained <= self.limit
    }

    /// A run over `agent`'s queue that takes at most `limit` items.
    pub fn start(agent: &str, limit: usize) -> (r: DrainRun)
        ensures
            r.agent@ == agent@,
            r.limit == limit,
            r.drained == 0,
            r.current is None,
            r.inv(),
    {
        DrainRun { agent: agent.to_owned(), limit, drained: 0, current: None }
    }

    /// Takes the agent's next item, if the limit allows and there is one:
    /// claims it in `table` at `now` and gives the prompt to run it with.
    pub fn next(&mut self, table: &mut QueueTable, now: i64) -> (a: DrainAction)
        requires
            old(table).wf(),
            old(self).inv(),
            old(self).current is None,
        ensures
            final(table).wf(),
            final(self).inv(),
            final(self).agent == old(self).agent,
            final(self).limit == old(self).limit,
            final(self).drained == old(self).drained,
            (old(self).drained == old(self).limit || forall|i: int|
                0 <= i < old(table)@.len() ==> !pending_for(#[trigger] old(table)@[i], old(self).agent@)) ==> {
                &&& a matches DrainAction::Finish { drained } && drained == old(self).drained
                &&& final(table)@ == old(table)@
                &&& final(self).current is None
            },
            !(old(self).drained == old(self).limit || forall|i: int|
                0 <= i < old(table)@.len() ==> !pending_for(#[trigger] old(table)@[i], old(self).agent@)) ==> {
                &&& a matches DrainAction::Run { item_id, task, prompt }
                &&& exists|i: int| {
                    &&& is_next_for(old(table)@, old(self).agent@, i)
                    &&& item_id == old(table)@[i].id
                    &&& task == old(table)@[i].task
                    &&& prompt@ == drain_prompt(old(self).agent@, old(table)@[i])
                }
                &&& marked(old(table)@, final(table)@, item_id@, QueueStatus::Processing, None, now as int)
                &&& final(self).current == Some(item_id)
            },
    {
        if self.drained == self.limit {
            return DrainAction::Finish { drained: self.drained };
        }
        match table.peek_next(self.agent.as_str()) {
            None => DrainAction::Finish { drained: self.drained },
            Some(item) => {
                table.mark_processing(item.id.as_str(), now);
                let prompt = build_drain_prompt(self.agent.as_str(), &item);
                self.current = Some(item.id.clone());
                DrainAction::Run { item_id: item.id, task: item.task, prompt }
            },
        }
    }

    /// Records how the run on the current item ended, at `now`: done with
    /// the response, or failed with the message.
    pub fn finish_item(&mut self, table: &mut QueueTable, outcome: RunOutcome, now: i64)
        requires
            old(table).wf(),
            old(self).inv(),
            old(self).current is Some,
            old(self).drained < old(self).limit,
        ensures
            final(table).wf(),
            final(self).inv(),
            final(self).agent == old(self).agent,
            final(self).limit == old(self).limit,
            final(self).drained == old(self).drained + 1,
            final(self).current is None,
            match outcome {
                RunOutcome::Succeeded(resp) => exists|s: String|
                    s@ == resp@ && marked(old(table)@, final(table)@, old(self).current->0@, QueueStatus::Done, Some(s), now as int),
                RunOutcome::Failed(err) => exists|s: String|
                    s@ == err@ && marked(old(table)@, final(table)@, old(self).current->0@, QueueStatus::Failed, Some(s), now as int),
            },
    {
        let id = match self.current.take() {
            Some(id) => id,
            None => String::new(),
        };
        match &outcome {
            RunOutcome::Succeeded(resp) => table.mark_done(id.as_str(), resp.as_str(), now),
            RunOutcome::Failed(err) => table.mark_failed(id.as_str(), err.as_str(), now),
        }
        self.drained = self.drained + 1;
    }
}

} // verus!
