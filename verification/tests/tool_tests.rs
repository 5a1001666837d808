use std::path::PathBuf;
use zeroclaw::enqueue_tool::{EnqueueArgs, QueueEnqueueTool};
use zeroclaw::queue::{QueueItem, QueueTable};
use zeroclaw::drain::build_drain_prompt;
use zeroclaw::tasks::{verdict_for_task, QueueVerdict};

fn tool() -> QueueEnqueueTool {
    QueueEnqueueTool::new(PathBuf::from("/tmp/ws"))
}

fn args(agent: Option<&str>, task: Option<&str>) -> EnqueueArgs {
    EnqueueArgs {
        agent: agent.map(str::to_string),
        project: None,
        task_id: None,
        task: task.map(str::to_string),
        context: None,
        priority: None,
    }
}

#[test]
fn tool_identity() {
    let t = tool();
    assert_eq!(t.workspace_dir, PathBuf::from("/tmp/ws"));
    assert_eq!(t.name(), "queue_enqueue");
    assert!(t.description().starts_with("Enqueue a task for another agent"));
    let schema: serde_json::Value = serde_json::from_str(t.parameters_schema()).unwrap();
    assert_eq!(schema["required"][0], "agent");
    assert_eq!(schema["required"][1], "task");
    assert_eq!(schema["properties"]["priority"]["type"], "integer");
}

#[test]
fn refused_by_policy() {
    let mut table = QueueTable::new();
    let r = tool().execute_in(&mut table, &args(Some("qa"), Some("t")), Err("read-only mode".to_string()), 1_000);
    assert!(!r.success);
    assert_eq!(r.output, "");
    assert_eq!(r.error.as_deref(), Some("read-only mode"));
    assert!(table.items().is_empty());
}

#[test]
fn missing_fields() {
    let mut table = QueueTable::new();
    let r = tool().execute_in(&mut table, &args(Some("   "), Some("t")), Ok(()), 1_000);
    assert_eq!(r.error.as_deref(), Some("Missing required field: 'agent'"));
    let r = tool().execute_in(&mut table, &args(None, Some("t")), Ok(()), 1_000);
    assert_eq!(r.error.as_deref(), Some("Missing required field: 'agent'"));
    let r = tool().execute_in(&mut table, &args(Some("qa"), Some(" \n")), Ok(()), 1_000);
    assert_eq!(r.error.as_deref(), Some("Missing required field: 'task'"));
    assert!(table.items().is_empty());
}

#[test]
fn enqueues_with_context_header() {
    let mut table = QueueTable::new();
    let a = EnqueueArgs {
        agent: Some("  qa ".to_string()),
        project: Some("hw3".to_string()),
        task_id: Some("hw3-004".to_string()),
        task: Some(" test it ".to_string()),
        context: Some("see handoff.md".to_string()),
        priority: Some(4_294_967_297),
    };
    let r = tool().execute_in(&mut table, &a, Ok(()), 1_000);
    assert!(r.success);
    assert!(r.error.is_none());
    let item: &QueueItem = &table.items()[0];
    assert_eq!(item.agent, "qa");
    assert_eq!(item.task, " test it ");
    assert_eq!(item.context.as_deref(), Some("project: hw3\ntask_id: hw3-004\n\nsee handoff.md"));
    assert_eq!(item.priority, 1);
    assert!(item.from_agent.is_none());
    assert_eq!(
        r.output,
        format!("Enqueued task for agent 'qa' (id: {}, project: hw3, task_id: hw3-004)", item.id)
    );
}

#[test]
fn empty_optional_fields_are_dropped() {
    let mut table = QueueTable::new();
    let a = EnqueueArgs {
        agent: Some("po".to_string()),
        project: Some(String::new()),
        task_id: None,
        task: Some("plan".to_string()),
        context: Some("only notes".to_string()),
        priority: None,
    };
    let r = tool().execute_in(&mut table, &a, Ok(()), 1_000);
    let item = &table.items()[0];
    assert_eq!(item.context.as_deref(), Some("only notes"));
    assert_eq!(item.priority, 0);
    assert_eq!(r.output, format!("Enqueued task for agent 'po' (id: {})", item.id));
    let b = args(Some("po"), Some("x"));
    tool().execute_in(&mut table, &b, Ok(()), 1_000);
    assert!(table.items()[1].context.is_none());
}

#[test]
fn handoff_is_found_and_guarded() {
    let mut table = QueueTable::new();
    let a = EnqueueArgs {
        agent: Some("qa".to_string()),
        project: Some("helloworld3".to_string()),
        task_id: Some("hw3-004".to_string()),
        task: Some("verify".to_string()),
        context: Some("notes".to_string()),
        priority: None,
    };
    assert!(tool().execute_in(&mut table, &a, Ok(()), 1_000).success);
    let found = table.query_by_project("helloworld3", Some("hw3-004"));
    assert_eq!(found.len(), 1);
    let item = found[0].copy();
    let (verdict, count) = verdict_for_task(&found, "hw3-004");
    assert_eq!(verdict, QueueVerdict::InProgress);
    assert_eq!(count, 1);
    let prompt = build_drain_prompt("qa", &item);
    assert!(prompt.contains("You are responsible for task `hw3-004` in project `helloworld3`."));
    assert!(prompt.contains(&format!("NOT this queue item id `{}`", item.id)));
}

#[test]
fn handoff_is_still_found_later() {
    let mut table = QueueTable::new();
    let a = EnqueueArgs {
        agent: Some("qa".to_string()),
        project: Some("p".to_string()),
        task_id: Some("t1".to_string()),
        task: Some("verify".to_string()),
        context: None,
        priority: None,
    };
    assert!(tool().execute_in(&mut table, &a, Ok(()), 1_000).success);
    let id = table.items()[0].id.clone();
    let mut other = args(Some("po"), Some("plan"));
    other.project = Some("p".to_string());
    other.task_id = Some("t10".to_string());
    tool().execute_in(&mut table, &other, Ok(()), 1_000);
    table.mark_processing(&id, 10);
    table.mark_done(&id, "ok", 20);
    let all = table.query_by_project("p", None);
    assert_eq!(all.len(), 2);
    assert_eq!(verdict_for_task(&all, "t1"), (QueueVerdict::Done, 1));
    let only = table.query_by_project("p", Some("t1"));
    assert_eq!(only.len(), 1);
    assert_eq!(only[0].id, id);
}
