//! The `queue_enqueue` tool: lets an agent queue a task for another agent,
//! with the project and task id written into the item's context.

use vstd::prelude::*;
use std::path::PathBuf;
use crate::queue::{is_new_item, EnqueueRequest, QueueError, QueueItem, QueueTable};
use crate::clock::uuid_v4_text;
use crate::text::{chars_of, push_str, string_of, trim, trim_chars};

verus! {

/// std's `PathBuf`, declared so that the tool can hold its workspace
/// directory; nothing inside it is read.
#[verifier::external_type_specification]
#[verifier::external_body]
pub struct ExPathBuf(PathBuf);

/// What a tool call returns to the agent.
#[derive(Debug)]
pub struct ToolResult {
    pub success: bool,
    pub output: String,
    pub error: Option<String>,
}

/// The arguments of a call, each as given where it is a string (or, for
/// `priority`, an integer that fits `i64`), absent otherwise.
#[derive(Debug)]
pub struct EnqueueArgs {
    pub agent: Option<String>,
    pub project: Option<String>,
    pub task_id: Option<String>,
    pub task: Option<String>,
    pub context: Option<String>,
    pub priority: Option<i64>,
}

/// The tool, bound to the workspace whose queue it writes.
pub struct QueueEnqueueTool {
    pub workspace_dir: PathBuf,
}

/// A text that is given and not empty.
pub open spec fn given(s: Option<String>) -> Option<Seq<char>> {
    match s {
        Some(t) => if t@.len() > 0 {
            Some(t@)
        } else {
            None
        },
        None => None,
    }
}

/// A text that is given and not blank.
pub open spec fn filled(s: Option<String>) -> bool {
    s matches Some(t) && trim(t@).len() > 0
}

/// The context written for a call: `project: <p>` and `task_id: <t>` lines
/// where given, then the caller's context, set off by an empty line where
/// lines precede it; none where all three are absent.
pub open spec fn context_for(project: Option<Seq<char>>, task_id: Option<Seq<char>>, extra: Option<Seq<char>>) -> Option<Seq<char>> {
    let head = match project {
        Some(p) => "project: "@ + p + "\n"@,
        None => Seq::empty(),
    } + match task_id {
        Some(t) => "task_id: "@ + t + "\n"@,
        None => Seq::empty(),
    };
    let all = match extra {
        Some(c) => if head.len() > 0 {
            head + "\n"@ + c
        } else {
            c
        },
        None => head,
    };
    if all.len() == 0 {
        None
    } else {
        Some(all)
    }
}

/// The message for a queued item.
pub open spec fn enqueued_message(agent: Seq<char>, id: Seq<char>, project: Option<Seq<char>>, task_id: Option<Seq<char>>) -> Seq<char> {
    "Enqueued task for agent '"@ + agent + "' (id: "@ + id + match project {
        Some(p) => ", project: "@ + p,
        None => Seq::empty(),
    } + match task_id {
        Some(t) => ", task_id: "@ + t,
        None => Seq::empty(),
    } + ")"@
}

/// A failed call with `message` as its error.
pub open spec fn refused(r: ToolResult, message: Seq<char>) -> bool {
    &&& !r.success
    &&& r.output@.len() == 0
    &&& r.error matches Some(e) && e@ == message
}

/// The request that a call makes.
pub open spec fn request_for(req: EnqueueRequest, args: EnqueueArgs) -> bool {
    &&& req.task == args.task->0
    &&& match context_for(given(args.project), given(args.task_id), given(args.context)) {
        Some(c) => req.context matches Some(s) && s@ == c,
        None => req.context is None,
    }
    &&& req.from_agent is None
    &&& req.priority == match args.priority {
        Some(n) => Some(n as i32),
        None => None::<i32>,
    }
}

fn given_text(s: &Option<String>) -> (r: Option<Vec<char>>)
    ensures
        match given(*s) {
            Some(t) => r matches Some(v) && v@ == t,
            None => r is None,
        },
{
    match s {
        Some(t) => {
            let v = chars_of(t.as_str());
            if v.len() > 0 {
                Some(v)
            } else {
                None
            }
        },
        None => None,
    }
}

fn push_all(out: &mut Vec<char>, v: &Vec<char>)
    ensures
        final(out)@ == old(out)@ + v@,
{
    crate::text::push_chars(out, v);
}

/// The context written for a call.
pub fn build_context(project: &Option<Vec<char>>, task_id: &Option<Vec<char>>, extra: &Option<Vec<char>>) -> (r: Option<String>)
    ensures
        match context_for(
            match project { Some(p) => Some(p@), None => None },
            match task_id { Some(t) => Some(t@), None => None },
            match extra { Some(c) => Some(c@), None => None },
        ) {
            Some(c) => r matches Some(s) && s@ == c,
            None => r is None,
        },
{
    let mut parts: Vec<char> = Vec::new();
    match project {
        Some(p) => {
            push_str(&mut parts, "project: ");
            push_all(&mut parts, p);
            push_str(&mut parts, "\n");
        },
        None => {},
    }
    let ghost after_p = parts@;
    match task_id {
        Some(t) => {
            push_str(&mut parts, "task_id: ");
            push_all(&mut parts, t);
            push_str(&mut parts, "\n");
        },
        None => {},
    }
    let ghost head = parts@;
    assert(head =~= match project {
        Some(p) => "project: "@ + p@ + "\n"@,
        None => Seq::<char>::empty(),
    } + match task_id {
        Some(t) => "task_id: "@ + t@ + "\n"@,
        None => Seq::<char>::empty(),
    });
    match extra {
        Some(c) => {
            if parts.len() > 0 {
                push_str(&mut parts, "\n");
            }
            push_all(&mut parts, c);
        },
        None => {},
    }
    if parts.len() == 0 {
        None
    } else {
        Some(string_of(&parts))
    }
}

/// The message for a queued item.
pub fn enqueued_text(agent: &str, id: &str, project: &Option<Vec<char>>, task_id: &Option<Vec<char>>) -> (s: String)
    ensures
        s@ == enqueued_message(
            agent@,
            id@,
            match project { Some(p) => Some(p@), None => None },
            match task_id { Some(t) => Some(t@), None => None },
        ),
{
    let mut out: Vec<char> = Vec::new();
    push_str(&mut out, "Enqueued task for agent '");
    push_str(&mut out, agent);
    push_str(&mut out, "' (id: ");
    push_str(&mut out, id);
    match project {
        Some(p) => {
            push_str(&mut out, ", project: ");
            push_all(&mut out, p);
        },
        None => {},
    }
    match task_id {
        Some(t) => {
            push_str(&mut out, ", task_id: ");
            push_all(&mut out, t);
        },
        None => {},
    }
    push_str(&mut out, ")");
    string_of(&out)
}

fn failure(message: &Vec<char>) -> (r: ToolResult)
    ensures
        refused(r, message@),
{
    ToolResult { success: false, output: String::new(), error: Some(string_of(message)) }
}

impl QueueEnqueueTool {
    pub fn new(workspace_dir: PathBuf) -> (t: Self)
        ensures
            t.workspace_dir == workspace_dir,
    {
        QueueEnqueueTool { workspace_dir }
    }

    pub fn name(&self) -> (s: &'static str)
        ensures
            s@ == "queue_enqueue"@,
    {
        "queue_enqueue"
    }

    pub fn description(&self) -> (s: &'static str)
        ensures
            s@ == "Enqueue a task for another agent to execute on its next drain cycle. Use this to hand off work after completing your own step, or to schedule the next stage of a delivery pipeline."@,
    {
        "Enqueue a task for another agent to execute on its next drain cycle. Use this to hand off work after completing your own step, or to schedule the next stage of a delivery pipeline."
    }

    /// The JSON schema of the tool's arguments, as text.
    pub fn parameters_schema(&self) -> (s: &'static str)
        ensures
            s@ == "{\"type\":\"object\",\"additionalProperties\":false,\"properties\":{\"agent\":{\"type\":\"string\",\"description\":\"Target agent name (must match a configured agent, e.g. 'guaripolo', 'qa', 'sr-fullstack')\"},\"project\":{\"type\":\"string\",\"description\":\"Project identifier (e.g. 'helloworld2'). Stored in context for CLI lookup.\"},\"task_id\":{\"type\":\"string\",\"description\":\"Caller-assigned task identifier (e.g. 'hw2-003'). Stored in context for CLI lookup.\"},\"task\":{\"type\":\"string\",\"description\":\"The task description the target agent should execute.\"},\"context\":{\"type\":\"string\",\"description\":\"Optional additional context or handoff notes for the target agent.\"},\"priority\":{\"type\":\"integer\",\"description\":\"Priority (lower number = higher priority). Default 0.\"}},\"required\":[\"agent\",\"task\"]}"@,
    {
        "{\"type\":\"object\",\"additionalProperties\":false,\"properties\":{\"agent\":{\"type\":\"string\",\"description\":\"Target agent name (must match a configured agent, e.g. 'guaripolo', 'qa', 'sr-fullstack')\"},\"project\":{\"type\":\"string\",\"description\":\"Project identifier (e.g. 'helloworld2'). Stored in context for CLI lookup.\"},\"task_id\":{\"type\":\"string\",\"description\":\"Caller-assigned task identifier (e.g. 'hw2-003'). Stored in context for CLI lookup.\"},\"task\":{\"type\":\"string\",\"description\":\"The task description the target agent should execute.\"},\"context\":{\"type\":\"string\",\"description\":\"Optional additional context or handoff notes for the target agent.\"},\"priority\":{\"type\":\"integer\",\"description\":\"Priority (lower number = higher priority). Default 0.\"}},\"required\":[\"agent\",\"task\"]}"
    }

    /// Carries out a call on `table` at `now`. `permission` is the security policy's
    /// answer for this tool: a refusal is returned as the call's error.
    /// Otherwise the agent (trimmed) and the task must be given and not
    /// blank; the request then carries the task as given, the context built
    /// from the project, task id and caller context, and the priority cut to
    /// `i32`.
    pub fn execute_in(&self, table: &mut QueueTable, args: &EnqueueArgs, permission: Result<(), String>, now: i64) -> (r: ToolResult)
        requires
            old(table).wf(),
        ensures
            final(table).wf(),
            permission matches Err(e) ==> refused(r, e@) && final(table)@ == old(table)@,
            permission is Ok && !filled(args.agent) ==> refused(r, "Missing required field: 'agent'"@)
                && final(table)@ == old(table)@,
            permission is Ok && filled(args.agent) && !filled(args.task) ==> refused(
                r,
                "Missing required field: 'task'"@,
            ) && final(table)@ == old(table)@,
            permission is Ok && filled(args.agent) && filled(args.task) ==> {
                ||| exists|item: QueueItem, req: EnqueueRequest| {
                    &&& request_for(req, *args)
                    &&& uuid_v4_text(item.id@)
                    &&& is_new_item(item, item.id, trim(args.agent->0@), req, now as int)
                    &&& final(table)@ == old(table)@.push(item)
                    &&& r.success
                    &&& r.output@ == enqueued_message(
                        item.agent@,
                        item.id@,
                        given(args.project),
                        given(args.task_id),
                    )
                    &&& r.error is None
                }
                ||| {
                    &&& refused(r, "Failed to enqueue task: Failed to insert queue item"@)
                    &&& final(table)@ == old(table)@
                    &&& exists|i: int| 0 <= i < old(table)@.len() && uuid_v4_text((#[trigger] old(table)@[i]).id@)
                }
            },
    {
        match permission {
            Err(e) => {
                return failure(&chars_of(e.as_str()));
            },
            Ok(()) => {},
        }
        let agent = match &args.agent {
            Some(a) => {
                let t = trim_chars(&chars_of(a.as_str()));
                if t.len() > 0 {
                    Some(t)
                } else {
                    None
                }
            },
            None => None,
        };
        let agent = match agent {
            Some(a) => a,
            None => {
                return failure(&chars_of("Missing required field: 'agent'"));
            },
        };
        let task = match &args.task {
            Some(t) => {
                if trim_chars(&chars_of(t.as_str())).len() > 0 {
                    Some(t.clone())
                } else {
                    None
                }
            },
            None => None,
        };
        let task = match task {
            Some(t) => t,
            None => {
                return failure(&chars_of("Missing required field: 'task'"));
            },
        };
        let project = given_text(&args.project);
        let task_id = given_text(&args.task_id);
        let extra = given_text(&args.context);
        let priority: Option<i32> = match args.priority {
            Some(n) => Some(#[verifier::truncate] (n as i32)),
            None => None,
        };
        let context = build_context(&project, &task_id, &extra);
        let req = EnqueueRequest { task, context, from_agent: None, priority };
        let ghost req_v = req;
        let agent_s = string_of(&agent);
        match table.enqueue(agent_s.as_str(), req, now) {
            Ok(item) => {
                let out = enqueued_text(item.agent.as_str(), item.id.as_str(), &project, &task_id);
                let r = ToolResult { success: true, output: out, error: None };
                assert(request_for(req_v, *args));
                r
            },
            Err(e) => {
                let mut m = chars_of("Failed to enqueue task: ");
                push_str(&mut m, e.message().as_str());
                proof {
                    reveal_strlit("Failed to enqueue task: ");
                    reveal_strlit("Failed to insert queue item");
                    reveal_strlit("Failed to enqueue task: Failed to insert queue item");
                    assert(m@ =~= "Failed to enqueue task: Failed to insert queue item"@);
                }
                failure(&m)
            },
        }
    }
}

} // verus!
