use zeroclaw::mission_control::{
    inbox_from_reply, program_from_reply, Endpoint, MissionControlClient, MissionControlObserver,
    ObserverEvent,
};

fn make_client() -> MissionControlClient {
    MissionControlClient::new("http://127.0.0.1:4010", "test-token", "test-instance", "manager")
}

fn make_observer() -> MissionControlObserver {
    MissionControlObserver::new(
        MissionControlClient::new("http://127.0.0.1:19999", "test-token", "test-instance", "manager"),
        true,
        true,
    )
}

#[test]
fn base_payload_includes_required_fields() {
    let client = make_client();
    let payload = client.base_payload("task.status", Some("in_progress"), "working", "hook", "2026-04-01T10:00:00+00:00");

    assert_eq!(payload.kind, "task.status");
    assert_eq!(payload.instance_id, "test-instance");
    assert_eq!(payload.agent_id, "manager");
    assert_eq!(payload.state.as_deref(), Some("in_progress"));
    assert_eq!(payload.source, "hook");
    assert_eq!(payload.timestamp, "2026-04-01T10:00:00+00:00");
}

#[test]
fn base_payload_without_state() {
    let client = make_client();
    let payload = client.base_payload("instance.heartbeat", None, "idle", "heartbeat", "2026-04-01T10:00:00+00:00");

    assert_eq!(payload.kind, "instance.heartbeat");
    assert!(payload.state.is_none());
}

#[test]
fn client_construction_succeeds() {
    let client = make_client();
    assert_eq!(client.api_base, "http://127.0.0.1:4010");
    assert_eq!(client.instance_id, "test-instance");
    assert_eq!(client.agent_id, "manager");
}

#[test]
fn urls_drop_trailing_slashes() {
    let c = MissionControlClient::new("http://mc:4010//", "tok", "inst", "mgr");
    assert_eq!(c.events_url(), "http://mc:4010/api/v1/signals/events");
    assert_eq!(c.heartbeat_url(), "http://mc:4010/api/v1/signals/heartbeat");
    assert_eq!(c.program_url(), "http://mc:4010/api/v1/programs/inst");
    assert_eq!(c.inbox_url(), "http://mc:4010/api/v1/agents/inst/mgr/inbox");
    assert_eq!(c.authorization(), "Bearer tok");
}

#[test]
fn program_and_inbox_replies() {
    assert_eq!(program_from_reply(true, Some("# Program".to_string())).as_deref(), Some("# Program"));
    assert_eq!(program_from_reply(true, Some("  \n".to_string())), None);
    assert_eq!(program_from_reply(false, Some("x".to_string())), None);
    assert_eq!(program_from_reply(true, None), None);
    let entries = vec![Some("stop".to_string()), None, Some("go".to_string())];
    assert_eq!(inbox_from_reply(true, Some(entries)), vec!["stop".to_string(), "go".to_string()]);
    assert!(inbox_from_reply(false, Some(vec![Some("x".to_string())])).is_empty());
    assert!(inbox_from_reply(true, None).is_empty());
}

#[test]
fn name_is_mission_control() {
    assert_eq!(make_observer().name(), "mission-control");
}

#[test]
fn records_all_events_without_panic() {
    let obs = make_observer();
    let start = obs
        .signal_for(&ObserverEvent::AgentStart { provider: "openrouter".into(), model: "sonnet-large".into() })
        .unwrap();
    assert_eq!(start.endpoint, Endpoint::Events);
    assert_eq!(start.kind, "agent.lifecycle");
    assert_eq!(start.message, "Agent started: openrouter/sonnet-large");
    let end = obs
        .signal_for(&ObserverEvent::AgentEnd {
            provider: "openrouter".into(),
            model: "sonnet-large".into(),
            tokens_used: Some(100),
        })
        .unwrap();
    assert_eq!(end.message, "Agent session ended: openrouter/sonnet-large, 100 tokens");
    assert_eq!(end.state.as_deref(), Some("done"));
    let turn = obs.signal_for(&ObserverEvent::TurnComplete).unwrap();
    assert_eq!((turn.kind.as_str(), turn.message.as_str()), ("task.status", "Turn completed"));
    let beat = obs.signal_for(&ObserverEvent::HeartbeatTick).unwrap();
    assert_eq!(beat.endpoint, Endpoint::Heartbeat);
    assert_eq!(beat.state.as_deref(), Some("idle"));
    let err = obs
        .signal_for(&ObserverEvent::Error { component: "gateway".into(), message: "test error".into() })
        .unwrap();
    assert_eq!(err.kind, "error.runtime");
    assert_eq!(err.message, "[gateway] test error");
    assert!(err.state.is_none());
    // Provider errors must be suppressed.
    assert!(obs
        .signal_for(&ObserverEvent::Error { component: "provider".into(), message: "rate limit".into() })
        .is_none());
    // These are no-ops.
    assert!(obs.signal_for(&ObserverEvent::LlmRequest).is_none());
    assert!(obs.signal_for(&ObserverEvent::ToolCall).is_none());
    assert!(obs.signal_for(&ObserverEvent::ChannelMessage).is_none());
}

#[test]
fn agent_end_without_tokens() {
    let obs = make_observer();
    let end = obs
        .signal_for(&ObserverEvent::AgentEnd { provider: "p".into(), model: "m".into(), tokens_used: None })
        .unwrap();
    assert_eq!(end.message, "Agent session ended: p/m");
}

#[test]
fn disabled_heartbeat_skips_spawn() {
    let obs = MissionControlObserver::new(
        MissionControlClient::new("http://127.0.0.1:19999", "", "", ""),
        true,
        false,
    );
    assert!(obs.signal_for(&ObserverEvent::HeartbeatTick).is_none());
}

#[test]
fn disabled_task_signals_skips_spawn() {
    let obs = MissionControlObserver::new(
        MissionControlClient::new("http://127.0.0.1:19999", "", "", ""),
        false,
        true,
    );
    assert!(obs
        .signal_for(&ObserverEvent::AgentStart { provider: "openrouter".into(), model: "sonnet-large".into() })
        .is_none());
    assert!(obs.signal_for(&ObserverEvent::TurnComplete).is_none());
    assert!(obs
        .signal_for(&ObserverEvent::Error { component: "gateway".into(), message: "boom".into() })
        .is_none());
}
