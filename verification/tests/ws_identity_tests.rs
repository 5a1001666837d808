use std::collections::HashMap;
use zeroclaw::identity::{
    content_to_store, done_marker, identity_files, memory_category, plan_hydration, should_read,
    FileSeen, MemoryCategory,
};
use zeroclaw::ws::{
    chat_content, default_provider_label, delegate_system_prompt, frame_step, prep_failure,
    provider_failure_message, resolve_route, start_event, turn_end, unknown_agent_message,
    wants_protocol, ws_protocol, ChatFrame, FrameStep, GatewayEvent, ModelRoute, Reply, WsQuery,
};

#[test]
fn subprotocol_negotiation() {
    assert_eq!(ws_protocol(), "zeroclaw.v1");
    assert!(wants_protocol(Some("foo, zeroclaw.v1")));
    assert!(wants_protocol(Some("zeroclaw.v1")));
    assert!(!wants_protocol(Some("zeroclaw.v2,other")));
    assert!(!wants_protocol(None));
}

#[test]
fn pairing_token_defaults_to_empty() {
    let q = WsQuery { token: None, session_id: None, agent_id: Some("qa".into()) };
    assert_eq!(q.pairing_token(), "");
    let q = WsQuery { token: Some("abc".into()), session_id: None, agent_id: None };
    assert_eq!(q.pairing_token(), "abc");
}

#[test]
fn hint_models_follow_routes() {
    let routes = vec![
        ModelRoute { hint: "fast".into(), provider: "groq".into(), model: "llama".into() },
        ModelRoute { hint: "fast".into(), provider: "other".into(), model: "x".into() },
    ];
    assert_eq!(resolve_route("openrouter", "hint:fast", &routes), ("groq".to_string(), "llama".to_string()));
    assert_eq!(resolve_route("openrouter", "hint:slow", &routes), ("openrouter".to_string(), "hint:slow".to_string()));
    assert_eq!(resolve_route("openrouter", "sonnet", &routes), ("openrouter".to_string(), "sonnet".to_string()));
}

#[test]
fn chat_frames() {
    let f = |k: Option<&str>, c: Option<&str>| ChatFrame { kind: k.map(str::to_string), content: c.map(str::to_string) };
    assert_eq!(chat_content(&f(Some("message"), Some("Hello"))).as_deref(), Some("Hello"));
    assert_eq!(chat_content(&f(Some("message"), Some(""))), None);
    assert_eq!(chat_content(&f(Some("ping"), Some("Hello"))), None);
    assert_eq!(chat_content(&f(None, Some("Hello"))), None);
    assert_eq!(unknown_agent_message("qa"), "Agent 'qa' not found in configuration");
    assert_eq!(provider_failure_message("qa", "no key"), "Failed to create provider for agent 'qa': no key");
}

#[test]
fn identity_table() {
    let files = identity_files();
    let names: Vec<&str> = files.iter().map(|f| f.filename.as_str()).collect();
    assert_eq!(
        names,
        vec!["IDENTITY.md", "SOUL.md", "AGENTS.md", "USER.md", "TOOLS.md", "HEARTBEAT.md", "BOOTSTRAP.md"]
    );
    assert_eq!(files[5].category, MemoryCategory::Daily);
    assert_eq!(files[2].key, "agent:topology");
    assert!(files[6].one_shot && !files[0].one_shot);
    assert_eq!(memory_category("daily"), MemoryCategory::Daily);
    assert_eq!(memory_category("core"), MemoryCategory::Core);
    assert_eq!(done_marker("BOOTSTRAP.md"), "BOOTSTRAP.md.done");
}

/// One hydration pass over an in-memory workspace, driven by the library's
/// plan: returns the count written.
fn hydrate(files: &mut HashMap<String, String>, mem: &mut HashMap<String, String>) -> usize {
    let table = identity_files();
    let seen: Vec<FileSeen> = table
        .iter()
        .map(|f| FileSeen {
            marker_exists: files.contains_key(&done_marker(&f.filename)),
            content: files.get(&f.filename).cloned(),
            in_memory: mem.contains_key(&f.key),
        })
        .collect();
    let plan = plan_hydration(&table, &seen);
    let mut written = 0;
    for p in plan {
        mem.insert(p.key.clone(), p.content.clone());
        written += 1;
        if p.rename {
            let body = files.remove(&p.filename).unwrap();
            files.insert(done_marker(&p.filename), body);
        }
    }
    written
}

#[test]
fn hydrates_present_files() {
    let mut files = HashMap::new();
    files.insert("IDENTITY.md".to_string(), "You are TestBot.".to_string());
    files.insert("SOUL.md".to_string(), "Be helpful.".to_string());
    let mut mem = HashMap::new();
    let written = hydrate(&mut files, &mut mem);
    assert_eq!(written, 2);
    assert!(mem.get("agent:identity").is_some());
    assert!(mem.get("agent:soul").is_some());
    assert!(mem.get("agent:topology").is_none());
}

#[test]
fn idempotent_skips_existing_entries() {
    let mut files = HashMap::new();
    files.insert("IDENTITY.md".to_string(), "You are TestBot.".to_string());
    let mut mem = HashMap::new();
    let first = hydrate(&mut files, &mut mem);
    let second = hydrate(&mut files, &mut mem);
    assert_eq!(first, 1);
    assert_eq!(second, 0);
}

#[test]
fn bootstrap_renamed_after_hydration() {
    let mut files = HashMap::new();
    files.insert("BOOTSTRAP.md".to_string(), "First run instructions.".to_string());
    let mut mem = HashMap::new();
    hydrate(&mut files, &mut mem);
    assert!(!files.contains_key("BOOTSTRAP.md"));
    assert!(files.contains_key("BOOTSTRAP.md.done"));
}

#[test]
fn bootstrap_done_skipped_on_subsequent_runs() {
    let mut files = HashMap::new();
    files.insert("BOOTSTRAP.md.done".to_string(), "done".to_string());
    let mut mem = HashMap::new();
    let written = hydrate(&mut files, &mut mem);
    assert_eq!(written, 0);
}

#[test]
fn plan_stores_trimmed_text_and_skips_known_keys() {
    let table = identity_files();
    let seen: Vec<FileSeen> = table
        .iter()
        .map(|f| FileSeen {
            marker_exists: false,
            content: match f.filename.as_str() {
                "IDENTITY.md" => Some("  You are TestBot.\n".to_string()),
                "SOUL.md" => Some("Be helpful.".to_string()),
                "USER.md" => Some("   ".to_string()),
                "HEARTBEAT.md" => Some("tick".to_string()),
                _ => None,
            },
            in_memory: f.key == "agent:soul",
        })
        .collect();
    let plan = plan_hydration(&table, &seen);
    assert_eq!(plan.len(), 2);
    assert_eq!(plan[0].key, "agent:identity");
    assert_eq!(plan[0].content, "You are TestBot.");
    assert_eq!(plan[0].category, MemoryCategory::Core);
    assert!(!plan[0].rename);
    assert_eq!(plan[1].key, "agent:heartbeat");
    assert_eq!(plan[1].category, MemoryCategory::Daily);
    assert!(should_read(&table[0], true));
    assert!(!should_read(&table[6], true));
}

#[test]
fn second_pass_stores_nothing() {
    let mut files = HashMap::new();
    files.insert("IDENTITY.md".to_string(), "You are TestBot.".to_string());
    files.insert("BOOTSTRAP.md".to_string(), "First run instructions.".to_string());
    files.insert("TOOLS.md".to_string(), "shell".to_string());
    let mut mem = HashMap::new();
    assert_eq!(hydrate(&mut files, &mut mem), 3);
    assert_eq!(hydrate(&mut files, &mut mem), 0);
    assert_eq!(mem.get("agent:bootstrap").map(String::as_str), Some("First run instructions."));
}

#[test]
fn blank_files_are_skipped() {
    assert_eq!(content_to_store("  \n\t"), None);
    assert_eq!(content_to_store("\n  hi there \n").as_deref(), Some("hi there"));
}

#[test]
fn socket_steps() {
    let frame = |k: &str, c: &str| Some(ChatFrame { kind: Some(k.to_string()), content: Some(c.to_string()) });
    assert!(matches!(frame_step(None), FrameStep::ReplyError { message } if message == "Invalid JSON"));
    assert!(matches!(frame_step(frame("message", "Hi")), FrameStep::Run { content } if content == "Hi"));
    assert!(matches!(frame_step(frame("ping", "Hi")), FrameStep::Skip));
    assert!(matches!(frame_step(frame("message", "")), FrameStep::Skip));
    assert!(matches!(start_event("groq", "llama"),
        GatewayEvent::AgentStart { provider, model } if provider == "groq" && model == "llama"));
    assert!(matches!(prep_failure("too big"), Reply::Error { message } if message == "Multimodal prep failed: too big"));
    let (reply, event) = turn_end(Ok("Hello!".to_string()), "groq", "llama");
    assert!(matches!(reply, Reply::Done { full_response } if full_response == "Hello!"));
    assert!(matches!(event, GatewayEvent::AgentEnd { provider, model } if provider == "groq" && model == "llama"));
    let (reply, event) = turn_end(Err("rate limited".to_string()), "groq", "llama");
    assert!(matches!(reply, Reply::Error { message } if message == "rate limited"));
    assert!(matches!(event, GatewayEvent::Error { component, message } if component == "ws_chat" && message == "rate limited"));
    assert_eq!(default_provider_label(None), "unknown");
    assert_eq!(default_provider_label(Some("openrouter")), "openrouter");
    assert_eq!(delegate_system_prompt(None), "");
    assert_eq!(delegate_system_prompt(Some("Be brief.")), "Be brief.");
}
