use zeroclaw::queue::{stale_cutoff, EnqueueRequest, QueueError, QueueItem, QueueStatus, QueueTable, StoredRow};

fn req(task: &str, context: Option<&str>, priority: Option<i32>) -> EnqueueRequest {
    EnqueueRequest {
        task: task.to_string(),
        context: context.map(|c| c.to_string()),
        from_agent: None,
        priority,
    }
}

fn ids(items: &[QueueItem]) -> Vec<String> {
    items.iter().map(|i| i.id.clone()).collect()
}

#[test]
fn status_names_round_trip() {
    for st in [QueueStatus::Pending, QueueStatus::Processing, QueueStatus::Done, QueueStatus::Failed] {
        assert_eq!(QueueStatus::try_from(st.as_str()), Ok(st));
    }
    assert_eq!(QueueStatus::Processing.as_str(), "processing");
    assert_eq!(
        QueueStatus::try_from("paused"),
        Err("Unknown queue status: paused".to_string())
    );
    assert!(QueueStatus::try_from("Pending").is_err());
}

#[test]
fn enqueue_at_sets_defaults() {
    let mut t = QueueTable::new();
    let item = t
        .enqueue_at("id-1".to_string(), "qa", req("write tests", None, None), 100)
        .unwrap();
    assert_eq!(item.id, "id-1");
    assert_eq!(item.agent, "qa");
    assert_eq!(item.task, "write tests");
    assert_eq!(item.priority, 0);
    assert_eq!(item.status, QueueStatus::Pending);
    assert_eq!(item.created_at, 100);
    assert!(item.started_at.is_none() && item.finished_at.is_none());
    assert_eq!(t.items().len(), 1);
}

#[test]
fn duplicate_id_is_refused() {
    let mut t = QueueTable::new();
    t.enqueue_at("a".to_string(), "qa", req("one", None, None), 1).unwrap();
    match t.enqueue_at("a".to_string(), "po", req("two", None, None), 2) {
        Err(QueueError::DuplicateId(d)) => assert_eq!(d, "a"),
        other => panic!("expected a duplicate id, got {:?}", other),
    }
    assert_eq!(t.items().len(), 1);
    let e = QueueError::DuplicateId("a".to_string());
    assert_eq!(e.message(), "Failed to insert queue item");
}

#[test]
fn enqueue_gives_fresh_uuid() {
    let mut t = QueueTable::new();
    let a = t.enqueue("qa", req("x", None, Some(3)), 5).unwrap();
    let b = t.enqueue("qa", req("y", None, None), 6).unwrap();
    assert_eq!(a.id.len(), 36);
    assert_eq!(&a.id[8..9], "-");
    assert_eq!(&a.id[14..15], "4");
    assert_ne!(a.id, b.id);
    assert_eq!(a.priority, 3);
    assert_eq!(t.pending_count("qa"), 2);
}

#[test]
fn peek_next_takes_priority_then_fifo() {
    let mut t = QueueTable::new();
    t.enqueue_at("late-low".to_string(), "qa", req("a", None, Some(5)), 10).unwrap();
    t.enqueue_at("early".to_string(), "qa", req("b", None, Some(1)), 30).unwrap();
    t.enqueue_at("earliest".to_string(), "qa", req("c", None, Some(1)), 20).unwrap();
    t.enqueue_at("other".to_string(), "po", req("d", None, Some(0)), 5).unwrap();
    assert_eq!(t.peek_next("qa").unwrap().id, "earliest");
    assert_eq!(t.peek_next("po").unwrap().id, "other");
    assert!(t.peek_next("devops").is_none());
}

#[test]
fn peek_next_ties_go_to_first_stored() {
    let mut t = QueueTable::new();
    t.enqueue_at("first".to_string(), "qa", req("a", None, None), 7).unwrap();
    t.enqueue_at("second".to_string(), "qa", req("b", None, None), 7).unwrap();
    assert_eq!(t.peek_next("qa").unwrap().id, "first");
}

#[test]
fn lifecycle_pending_processing_done() {
    let mut t = QueueTable::new();
    t.enqueue_at("x".to_string(), "qa", req("a", None, None), 1).unwrap();
    t.mark_processing("x", 5);
    let it = &t.items()[0];
    assert_eq!(it.status, QueueStatus::Processing);
    assert_eq!(it.started_at, Some(5));
    assert!(t.peek_next("qa").is_none());
    assert_eq!(t.pending_count("qa"), 0);
    t.mark_done("x", "all good", 9);
    let it = &t.items()[0];
    assert_eq!(it.status, QueueStatus::Done);
    assert_eq!(it.finished_at, Some(9));
    assert_eq!(it.result.as_deref(), Some("all good"));
    assert_eq!(it.started_at, Some(5));
}

#[test]
fn mark_failed_records_error() {
    let mut t = QueueTable::new();
    t.enqueue_at("x".to_string(), "qa", req("a", None, None), 1).unwrap();
    t.mark_failed("x", "boom", 4);
    let it = &t.items()[0];
    assert_eq!(it.status, QueueStatus::Failed);
    assert_eq!(it.error.as_deref(), Some("boom"));
    assert!(it.result.is_none());
    t.mark_failed("missing", "nothing", 5);
    assert_eq!(t.items()[0].finished_at, Some(4));
}

#[test]
fn list_filters_and_orders() {
    let mut t = QueueTable::new();
    t.enqueue_at("a".to_string(), "qa", req("a", None, Some(2)), 1).unwrap();
    t.enqueue_at("b".to_string(), "qa", req("b", None, Some(1)), 2).unwrap();
    t.enqueue_at("c".to_string(), "po", req("c", None, Some(0)), 3).unwrap();
    t.enqueue_at("d".to_string(), "qa", req("d", None, Some(1)), 0).unwrap();
    t.mark_done("b", "ok", 4);
    assert_eq!(ids(&t.list("qa", None)), vec!["d", "b", "a"]);
    assert_eq!(ids(&t.list("qa", Some("pending"))), vec!["d", "a"]);
    assert_eq!(ids(&t.list("qa", Some("done"))), vec!["b"]);
    assert!(t.list("qa", Some("bogus")).is_empty());
    assert!(t.list("devops", None).is_empty());
}

#[test]
fn pending_list_head_is_next_item() {
    let mut t = QueueTable::new();
    t.enqueue_at("a".to_string(), "qa", req("a", None, Some(3)), 1).unwrap();
    t.enqueue_at("b".to_string(), "qa", req("b", None, Some(-1)), 2).unwrap();
    t.enqueue_at("c".to_string(), "qa", req("c", None, Some(-1)), 3).unwrap();
    let pending = t.list("qa", Some("pending"));
    assert_eq!(pending[0].id, t.peek_next("qa").unwrap().id);
    assert_eq!(pending.len() as u64, t.pending_count("qa"));
}

#[test]
fn cancel_only_pending() {
    let mut t = QueueTable::new();
    t.enqueue_at("a".to_string(), "qa", req("a", None, None), 1).unwrap();
    t.enqueue_at("b".to_string(), "qa", req("b", None, None), 2).unwrap();
    t.mark_processing("b", 3);
    assert!(t.cancel("a").is_ok());
    assert_eq!(ids(t.items()), vec!["b"]);
    match t.cancel("b") {
        Err(e) => assert_eq!(e.message(), "Queue item 'b' not found or not in pending state"),
        Ok(()) => panic!("a processing item was cancelled"),
    }
    assert!(t.cancel("zzz").is_err());
    assert_eq!(t.items().len(), 1);
}

#[test]
fn query_by_project_newest_first() {
    let mut t = QueueTable::new();
    t.enqueue_at("1".to_string(), "po", req("a", Some("project: hw3\ntask_id: hw3-001\n"), None), 10).unwrap();
    t.enqueue_at("2".to_string(), "qa", req("b", Some("project: hw3\ntask_id: hw3-002\n"), None), 30).unwrap();
    t.enqueue_at("3".to_string(), "qa", req("c", Some("project: other\n"), None), 20).unwrap();
    t.enqueue_at("4".to_string(), "qa", req("d", None, None), 40).unwrap();
    t.enqueue_at("5".to_string(), "qa", req("e", Some("project: hw33\n"), None), 5).unwrap();
    assert_eq!(ids(&t.query_by_project("hw3", None)), vec!["2", "1", "5"]);
    assert_eq!(ids(&t.query_by_project("hw3", Some("hw3-001"))), vec!["1"]);
    assert!(t.query_by_project("none", None).is_empty());
}

#[test]
fn reset_stale_returns_old_claims() {
    let mut t = QueueTable::new();
    t.enqueue_at("old".to_string(), "qa", req("a", None, None), 1).unwrap();
    t.enqueue_at("new".to_string(), "qa", req("b", None, None), 2).unwrap();
    t.enqueue_at("done".to_string(), "qa", req("c", None, None), 3).unwrap();
    t.mark_processing("old", 100);
    t.mark_processing("new", 900);
    t.mark_processing("done", 50);
    t.mark_done("done", "r", 60);
    assert_eq!(t.reset_stale_before(500), 1);
    let old = t.items().iter().find(|i| i.id == "old").unwrap();
    assert_eq!(old.status, QueueStatus::Pending);
    assert!(old.started_at.is_none());
    let new = t.items().iter().find(|i| i.id == "new").unwrap();
    assert_eq!(new.status, QueueStatus::Processing);
    assert_eq!(t.items().iter().find(|i| i.id == "done").unwrap().status, QueueStatus::Done);
    assert_eq!(t.reset_stale_before(500), 0);
}

#[test]
fn stale_cutoff_counts_minutes() {
    assert_eq!(stale_cutoff(1_000_000_000, 10), 1_000_000_000 - 600_000_000);
    assert_eq!(stale_cutoff(0, -1), 60_000_000);
    assert_eq!(stale_cutoff(i64::MIN + 5, 1), i64::MIN);
}

#[test]
fn reset_stale_counts_minutes_before_now() {
    let mut t = QueueTable::new();
    t.enqueue_at("x".to_string(), "qa", req("a", None, None), 1).unwrap();
    let start = 1_700_000_000_000_000;
    t.mark_processing("x", start);
    assert_eq!(t.reset_stale(10, start + 5 * 60_000_000), 0);
    assert_eq!(t.items()[0].status, QueueStatus::Processing);
    assert_eq!(t.reset_stale(10, start + 11 * 60_000_000), 1);
    assert_eq!(t.items()[0].status, QueueStatus::Pending);
    assert_eq!(t.items()[0].started_at, None);
}

#[test]
fn from_items_refuses_duplicates() {
    let mut t = QueueTable::new();
    t.enqueue_at("a".to_string(), "qa", req("a", None, None), 1).unwrap();
    let copy = t.items()[0].copy();
    let again = t.items()[0].copy();
    assert!(QueueTable::from_items(vec![copy]).is_ok());
    let b = QueueItem { id: "b".to_string(), ..again.copy() };
    assert!(QueueTable::from_items(vec![again.copy(), b]).is_ok());
    match QueueTable::from_items(vec![again.copy(), again]) {
        Err(QueueError::DuplicateId(d)) => assert_eq!(d, "a"),
        _ => panic!("duplicates were accepted"),
    }
}

#[test]
fn processing_agents_are_distinct() {
    let mut t = QueueTable::new();
    for (id, agent) in [("1", "qa"), ("2", "po"), ("3", "qa"), ("4", "devops")] {
        t.enqueue_at(id.to_string(), agent, req("t", None, None), 1).unwrap();
    }
    t.mark_processing("1", 2);
    t.mark_processing("2", 2);
    t.mark_processing("3", 2);
    assert_eq!(t.processing_agents(), vec!["qa".to_string(), "po".to_string()]);
    assert_eq!(t.agents_to_reset("all"), vec!["qa".to_string(), "po".to_string()]);
    assert_eq!(t.agents_to_reset("devops"), vec!["devops".to_string()]);
}

#[test]
fn stored_rows_decode() {
    let row = StoredRow {
        id: "id".to_string(),
        agent: "qa".to_string(),
        task: "t".to_string(),
        context: None,
        from_agent: Some("po".to_string()),
        priority: 2,
        status: "weird".to_string(),
        created_at: "not a time".to_string(),
        started_at: Some("2024-01-01T00:00:01.000002+00:00".to_string()),
        finished_at: Some("garbage".to_string()),
        result: None,
        error: None,
    };
    let item = QueueItem::from_stored(row, 77);
    assert_eq!(item.status, QueueStatus::Unrecognized);
    assert_eq!(item.created_at, 77);
    assert_eq!(item.started_at, Some(1_704_067_201_000_002));
    assert_eq!(item.finished_at, None);
    assert_eq!(item.from_agent.as_deref(), Some("po"));
    assert!(item.to_stored().is_none());
    // A row of an unrecognized status is listed, but no status query takes it.
    let mut t = QueueTable::from_items(vec![item]).unwrap();
    assert_eq!(t.list("qa", None).len(), 1);
    assert!(t.list("qa", Some("pending")).is_empty());
    assert!(t.list("qa", Some("weird")).is_empty());
    assert!(t.peek_next("qa").is_none());
    assert_eq!(t.pending_count("qa"), 0);
    assert!(t.cancel("id").is_err());
    t.mark_done("id", "ok", 5);
    assert_eq!(t.items()[0].status, QueueStatus::Done);
    assert_eq!(t.items()[0].to_stored().unwrap().status, "done");
}

#[test]
fn stored_rows_round_trip() {
    let mut t = QueueTable::new();
    t.enqueue_at("a".to_string(), "qa", req("task", Some("ctx"), Some(4)), 1_700_000_000_123_456).unwrap();
    t.mark_processing("a", 1_700_000_001_000_000);
    let row = t.items()[0].to_stored().unwrap();
    assert_eq!(row.status, "processing");
    assert_eq!(row.created_at, "2023-11-14T22:13:20.123456+00:00");
    assert!(row.finished_at.is_none());
    let back = QueueItem::from_stored(row, 0);
    assert_eq!(back.created_at, 1_700_000_000_123_456);
    assert_eq!(back.started_at, Some(1_700_000_001_000_000));
    assert_eq!(back.status, QueueStatus::Processing);
    assert_eq!(back.context.as_deref(), Some("ctx"));
}

#[test]
fn cancel_right_after_enqueue_restores_table() {
    let mut t = QueueTable::new();
    t.enqueue_at("a".to_string(), "qa", req("first", None, None), 1).unwrap();
    let before: Vec<String> = t.items().iter().map(|i| i.id.clone()).collect();
    let item = t.enqueue("qa", req("second", None, Some(3)), 9).unwrap();
    assert_eq!(t.items().len(), 2);
    assert!(t.cancel(&item.id).is_ok());
    let after: Vec<String> = t.items().iter().map(|i| i.id.clone()).collect();
    assert_eq!(after, before);
    assert_eq!(t.items()[0].task, "first");
}

#[test]
fn task_query_matches_whole_lines_only() {
    let mut t = QueueTable::new();
    t.enqueue_at("x1".to_string(), "qa", req("a", Some("project: p\ntask_id: hw3-0010"), None), 1).unwrap();
    t.enqueue_at("x2".to_string(), "qa", req("b", Some("project: p\ntask_id: hw3-001"), None), 2).unwrap();
    t.enqueue_at("x3".to_string(), "qa", req("c", Some("project: p\n  task_id: hw3-001  \nmore"), None), 3).unwrap();
    let ids: Vec<String> = t.query_by_project("p", Some("hw3-001")).iter().map(|i| i.id.clone()).collect();
    assert_eq!(ids, vec!["x3".to_string(), "x2".to_string()]);
    assert_eq!(t.query_by_project("p", None).len(), 3);
}

#[test]
fn stored_times_round_trip_at_the_year_bounds() {
    for m in [-62_167_219_200_000_000i64, 253_402_300_799_999_999, 0, -1] {
        let mut t = QueueTable::new();
        t.enqueue_at("a".to_string(), "qa", req("task", None, None), m).unwrap();
        let row = t.items()[0].to_stored().unwrap();
        assert_eq!(QueueItem::from_stored(row, 7).created_at, m);
    }
}
