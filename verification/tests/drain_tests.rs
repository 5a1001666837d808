use zeroclaw::drain::{build_drain_prompt, DrainAction, DrainRun, RunOutcome};
use zeroclaw::queue::{EnqueueRequest, QueueItem, QueueStatus, QueueTable};

fn item(id: &str, task: &str, context: Option<&str>, from: Option<&str>) -> QueueItem {
    QueueItem {
        id: id.to_string(),
        agent: "qa".to_string(),
        task: task.to_string(),
        context: context.map(str::to_string),
        from_agent: from.map(str::to_string),
        priority: 0,
        status: QueueStatus::Pending,
        created_at: 0,
        started_at: None,
        finished_at: None,
        result: None,
        error: None,
    }
}

#[test]
fn prompt_without_context() {
    let p = build_drain_prompt("qa", &item("id1", "Test it", None, None));
    assert_eq!(
        p,
        "[queue-drain:qa item:id1]\n\nYour task:\nTest it\n\nComplete the task above. Be thorough but concise in your response."
    );
}

#[test]
fn prompt_with_context_and_requester() {
    let p = build_drain_prompt("qa", &item("id1", "T", Some("just notes"), Some("po")));
    assert_eq!(
        p,
        "[queue-drain:qa item:id1]\n\nYour task:\nT\n\nContext:\njust notes\n\nRequested by: po\n\nComplete the task above. Be thorough but concise in your response."
    );
}

#[test]
fn prompt_task_guard() {
    let ctx = "  project: helloworld3 \ntask_id:  hw3-003\n";
    let p = build_drain_prompt("sr", &item("q-9", "Build", Some(ctx), None));
    let guard = "\n[TASK GUARD]\nYou are responsible for task `hw3-003` in project `helloworld3`.\n- In tasks.md, update ONLY the row with ID `hw3-003` (set Status to `in-progress` when you start, `done` when you finish).\n- When calling queue_enqueue to hand off to the next agent, set `task_id` to the NEXT agent's task row ID from tasks.md \u{2014} NOT this queue item id `q-9`.\n- tasks.md is at: ~/coding-projects/helloworld3/openspec/changes/<change-id>/tasks.md\n- Read tasks.md first to confirm your task is not already `done`. If it is, output: SKIP: task hw3-003 already done \u{2014} and stop.\n";
    let expected = format!(
        "[queue-drain:sr item:q-9]\n\nYour task:\nBuild\n\nContext:\n{ctx}\n{guard}\nComplete the task above. Be thorough but concise in your response."
    );
    assert_eq!(p, expected);
}

#[test]
fn prompt_guard_needs_both_fields() {
    let p = build_drain_prompt("qa", &item("i", "T", Some("task_id: t1"), None));
    assert!(!p.contains("[TASK GUARD]"));
}

#[test]
fn drain_run_claims_then_finishes() {
    let mut t = QueueTable::new();
    for (id, prio) in [("a", 2), ("b", 1), ("c", 3)] {
        t.enqueue_at(
            id.to_string(),
            "qa",
            EnqueueRequest { task: format!("task {id}"), context: None, from_agent: None, priority: Some(prio) },
            1,
        )
        .unwrap();
    }
    let mut run = DrainRun::start("qa", 2);
    let mut order = Vec::new();
    loop {
        match run.next(&mut t, 50) {
            DrainAction::Run { item_id, task, prompt } => {
                assert!(prompt.starts_with(&format!("[queue-drain:qa item:{item_id}]")));
                assert_eq!(task, format!("task {item_id}"));
                let st = t.items().iter().find(|i| i.id == item_id).unwrap().status;
                assert_eq!(st, QueueStatus::Processing);
                let outcome = if item_id == "b" {
                    RunOutcome::Succeeded("fine".to_string())
                } else {
                    RunOutcome::Failed("broke".to_string())
                };
                order.push(item_id);
                run.finish_item(&mut t, outcome, 60);
            }
            DrainAction::Finish { drained } => {
                assert_eq!(drained, 2);
                break;
            }
        }
    }
    assert_eq!(order, vec!["b", "a"]);
    let by_id = |id: &str| t.items().iter().find(|i| i.id == id).unwrap().copy();
    assert_eq!(by_id("b").status, QueueStatus::Done);
    assert_eq!(by_id("b").result.as_deref(), Some("fine"));
    assert_eq!(by_id("a").status, QueueStatus::Failed);
    assert_eq!(by_id("a").error.as_deref(), Some("broke"));
    assert_eq!(by_id("c").status, QueueStatus::Pending);
}

#[test]
fn drain_empty_queue_finishes_at_once() {
    let mut t = QueueTable::new();
    let mut run = DrainRun::start("qa", 5);
    match run.next(&mut t, 50) {
        DrainAction::Finish { drained } => assert_eq!(drained, 0),
        DrainAction::Run { .. } => panic!("nothing to run"),
    }
}
