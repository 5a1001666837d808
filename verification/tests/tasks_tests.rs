use zeroclaw::queue::{EnqueueRequest, QueueItem, QueueTable};
use zeroclaw::tasks::{
    audit_tasks, drift, parse_tasks_md, patch_tasks_md, queue_label, tasks_md_path,
    verdict_for_task, QueueVerdict, TaskRow,
};

const TABLE: &str = "# Tasks\n\nSome intro.\n\n| ID | Title | Owner | Status |\n|----|-------|-------|--------|\n| hw3-001 | Proposal | po | done |\n| hw3-002 | Design | tech-lead | todo |\n|  | no id | x | todo |\n| short | row |\n\nTrailing text.\n| hw3-009 | after | table | todo |\n";

fn row(id: &str, title: &str, owner: &str, status: &str) -> (String, String, String, String) {
    (id.to_string(), title.to_string(), owner.to_string(), status.to_string())
}

fn rows_of(rows: &[TaskRow]) -> Vec<(String, String, String, String)> {
    rows.iter()
        .map(|r| (r.id.clone(), r.title.clone(), r.owner.clone(), r.md_status.clone()))
        .collect()
}

#[test]
fn parses_first_table_only() {
    let rows = parse_tasks_md(TABLE);
    assert_eq!(
        rows_of(&rows),
        vec![row("hw3-001", "Proposal", "po", "done"), row("hw3-002", "Design", "tech-lead", "todo")]
    );
}

#[test]
fn parses_table_without_separator() {
    let rows = parse_tasks_md("|id|title|owner|status|\n| a | b | c | d | e |\n");
    assert_eq!(rows_of(&rows), vec![row("a", "b", "c", "d")]);
    assert!(parse_tasks_md("no table here\n").is_empty());
    assert!(parse_tasks_md("").is_empty());
}

#[test]
fn patch_rewrites_status_cell_only() {
    let patches = vec![("hw3-002".to_string(), "in-progress".to_string())];
    let out = patch_tasks_md(TABLE, &patches);
    assert!(out.contains("| hw3-002 | Design | tech-lead | in-progress |\n"));
    assert!(out.contains("| hw3-001 | Proposal | po | done |\n"));
    assert!(out.starts_with("# Tasks\n\nSome intro.\n"));
    assert_eq!(out.lines().count(), TABLE.lines().count());
}

#[test]
fn patch_pads_to_byte_width() {
    let content = "| ID | Title | Owner | Status |\n|---|---|---|---|\n| t1 | Caf\u{e9} | me | in-progress |\n";
    let patches = vec![("t1".to_string(), "done".to_string())];
    let out = patch_tasks_md(content, &patches);
    assert!(out.ends_with("| t1 | Caf\u{e9}  | me | done        |\n"));
}

#[test]
fn patch_without_patches_normalises_lines() {
    assert_eq!(patch_tasks_md("a\r\nb", &[]), "a\nb\n");
    assert_eq!(patch_tasks_md("", &[]), "");
}

#[test]
fn sync_then_reparse_shows_queue_status() {
    let patches = vec![
        ("hw3-001".to_string(), "failed".to_string()),
        ("hw3-002".to_string(), "in-progress".to_string()),
    ];
    let out = patch_tasks_md(TABLE, &patches);
    let rows = parse_tasks_md(&out);
    assert_eq!(
        rows_of(&rows),
        vec![row("hw3-001", "Proposal", "po", "failed"), row("hw3-002", "Design", "tech-lead", "in-progress")]
    );
}

fn item_with(table: &mut QueueTable, id: &str, ctx: &str, created: i64) -> QueueItem {
    table
        .enqueue_at(
            id.to_string(),
            "qa",
            EnqueueRequest { task: "t".to_string(), context: Some(ctx.to_string()), from_agent: None, priority: None },
            created,
        )
        .unwrap()
}

#[test]
fn verdicts_follow_item_statuses() {
    let mut t = QueueTable::new();
    item_with(&mut t, "a", "project: p\ntask_id: t1\n", 1);
    item_with(&mut t, "b", "project: p\n  task_id: t1  \n", 2);
    item_with(&mut t, "c", "project: p\ntask_id: t2\n", 3);
    item_with(&mut t, "d", "project: p\ntask_id: t3\nextra", 4);
    item_with(&mut t, "e", "task_id: t10", 5);
    t.mark_done("a", "ok", 9);
    t.mark_failed("c", "bad", 9);
    t.mark_done("d", "ok", 9);
    let items: Vec<QueueItem> = t.items().iter().map(|i| i.copy()).collect();
    assert_eq!(verdict_for_task(&items, "t1"), (QueueVerdict::InProgress, 2));
    assert_eq!(verdict_for_task(&items, "t2"), (QueueVerdict::Failed, 1));
    assert_eq!(verdict_for_task(&items, "t3"), (QueueVerdict::Done, 1));
    assert_eq!(verdict_for_task(&items, "t4"), (QueueVerdict::NotQueued, 0));
    assert_eq!(verdict_for_task(&items, "t1 "), (QueueVerdict::NotQueued, 0));
}

#[test]
fn drift_compares_lowercased_status() {
    assert!(!drift("Done", QueueVerdict::Done));
    assert!(!drift("TODO", QueueVerdict::NotQueued));
    assert!(drift("todo", QueueVerdict::Done));
    assert!(drift("in progress", QueueVerdict::InProgress));
    assert!(!drift("failed", QueueVerdict::Failed));
}

#[test]
fn queue_labels() {
    assert_eq!(queue_label(QueueVerdict::NotQueued, 0), "\u{2500}");
    assert_eq!(queue_label(QueueVerdict::InProgress, 3), "in-progress (3)");
    assert_eq!(queue_label(QueueVerdict::Done, 12), "done (12)");
    assert_eq!(queue_label(QueueVerdict::Failed, 1), "FAILED (1)");
}

#[test]
fn audit_collects_sync_patches() {
    let tasks = parse_tasks_md(TABLE);
    let mut t = QueueTable::new();
    item_with(&mut t, "x", "project: hw3\ntask_id: hw3-002\n", 1);
    let items: Vec<QueueItem> = t.items().iter().map(|i| i.copy()).collect();
    let (audits, drift_count, patches) = audit_tasks(&tasks, &items, true);
    assert_eq!(audits.len(), 2);
    assert_eq!(audits[0].verdict, QueueVerdict::NotQueued);
    assert!(audits[0].drift);
    assert_eq!(audits[1].verdict, QueueVerdict::InProgress);
    assert_eq!(audits[1].queue_count, 1);
    assert!(audits[1].drift);
    assert_eq!(drift_count, 2);
    assert_eq!(patches, vec![("hw3-002".to_string(), "in-progress".to_string())]);
    let (_, _, none) = audit_tasks(&tasks, &items, false);
    assert!(none.is_empty());
}

#[test]
fn tasks_path_under_home() {
    assert_eq!(
        tasks_md_path(Some("/home/u"), "hw3", "hw3-001").unwrap(),
        "/home/u/coding-projects/hw3/openspec/changes/hw3-001/tasks.md"
    );
    assert_eq!(
        tasks_md_path(Some("/home/u/"), "hw3", "c").unwrap(),
        "/home/u/coding-projects/hw3/openspec/changes/c/tasks.md"
    );
    assert_eq!(tasks_md_path(Some("/h"), "/abs", "c").unwrap(), "/abs/openspec/changes/c/tasks.md");
    assert_eq!(tasks_md_path(None, "p", "c").unwrap_err(), "Cannot resolve $HOME");
}

#[test]
fn patch_keeps_cells_after_status() {
    let content = "| ID | Title | Owner | Status | Notes |\n|---|---|---|---|---|\n| T1 | A | B | todo | keep |\n";
    let patches = vec![("T1".to_string(), "done".to_string())];
    assert_eq!(
        patch_tasks_md(content, &patches),
        "| ID | Title | Owner | Status | Notes |\n|---|---|---|---|---|\n| T1 | A | B | done | keep |\n"
    );
    let content = "| ID | Title | Owner | Status |\n|---|---|---|---|\n| T1 | A | B | todo | x | |\n";
    assert_eq!(
        patch_tasks_md(content, &patches),
        "| ID | Title | Owner | Status |\n|---|---|---|---|\n| T1 | A | B | done | x |  |\n"
    );
}

#[test]
fn patch_first_row_of_table_without_separator() {
    let content = "|id|title|owner|status|\n| a | b | c | todo |\n| d | e | f | todo |\n";
    let patches = vec![("a".to_string(), "done".to_string()), ("d".to_string(), "failed".to_string())];
    let out = patch_tasks_md(content, &patches);
    assert_eq!(out, "|id|title|owner|status|\n| a | b | c | done |\n| d | e | f | failed |\n");
    assert_eq!(rows_of(&parse_tasks_md(&out)), vec![row("a", "b", "c", "done"), row("d", "e", "f", "failed")]);
}

#[test]
fn sync_removes_drift_where_the_queue_has_a_verdict() {
    let content = "|ID|Title|Owner|Status|Notes|\n| t1 | A | po | todo | n1 |\n| t2 | B | qa | todo | n2 |\n| t3 | C | qa | done | n3 |\n";
    let tasks = parse_tasks_md(content);
    let mut t = QueueTable::new();
    item_with(&mut t, "x", "project: p\ntask_id: t1\n", 1);
    let items: Vec<QueueItem> = t.items().iter().map(|i| i.copy()).collect();
    let (_, drift_count, patches) = audit_tasks(&tasks, &items, true);
    assert_eq!(drift_count, 2);
    let out = patch_tasks_md(content, &patches);
    assert!(out.contains("| t1 | A | po | in-progress | n1 |\n"));
    let (audits, drift_after, _) = audit_tasks(&parse_tasks_md(&out), &items, true);
    assert!(!audits[0].drift);
    assert!(audits[2].drift);
    assert_eq!(drift_after, 1);
}

#[test]
fn verdict_ignores_order_and_other_tasks() {
    let mut t = QueueTable::new();
    item_with(&mut t, "a", "project: p\ntask_id: t1\n", 1);
    item_with(&mut t, "b", "project: p\ntask_id: t1\n", 2);
    item_with(&mut t, "c", "project: p\ntask_id: t2\n", 3);
    t.mark_done("a", "ok", 4);
    t.mark_failed("b", "no", 5);
    let items: Vec<QueueItem> = t.items().iter().map(|i| i.copy()).collect();
    let first = verdict_for_task(&items[..2], "t1");
    let reordered = vec![items[2].copy(), items[1].copy(), items[0].copy()];
    assert_eq!(verdict_for_task(&reordered, "t1"), first);
    assert_eq!(first, (QueueVerdict::Failed, 2));
}

#[test]
fn dashed_status_in_first_row_without_separator_reads_as_separator() {
    let content = "|id|title|owner|status|\n| a | b | c | todo |\n| d | e | f | todo |\n";
    let patches = vec![("a".to_string(), "x---y".to_string())];
    let out = patch_tasks_md(content, &patches);
    assert_eq!(out, "|id|title|owner|status|\n| a | b | c | x---y |\n| d | e | f | todo |\n");
    assert_eq!(rows_of(&parse_tasks_md(&out)), vec![row("d", "e", "f", "todo")]);
    let with_sep = "|id|title|owner|status|\n|---|---|---|---|\n| a | b | c | todo |\n";
    let out = patch_tasks_md(with_sep, &patches);
    assert_eq!(rows_of(&parse_tasks_md(&out)), vec![row("a", "b", "c", "x---y")]);
}
