//! Mission Control signals: the client's endpoints and payloads, what its
//! replies are read as, and which observer events become which signals.

use vstd::prelude::*;
use crate::text::{chars_of, decimal, decimal_chars, push_chars, push_str, string_of, trim, trim_chars, trim_end_matches};

verus! {

/// Where and as whom signals are sent.
#[derive(Debug)]
pub struct MissionControlClient {
    pub api_base: String,
    pub auth_token: String,
    pub instance_id: String,
    pub agent_id: String,
}

/// A signal's shared fields, in the order the API reads them; `state` is
/// left out where absent.
#[derive(Debug)]
pub struct SignalPayload {
    pub kind: String,
    pub instance_id: String,
    pub agent_id: String,
    pub message: String,
    pub source: String,
    pub timestamp: String,
    pub state: Option<String>,
}

/// The endpoint a signal goes to.
#[derive(Debug, Clone, Copy, PartialEq, Eq, Structural)]
pub enum Endpoint {
    Events,
    Heartbeat,
}

/// A signal to send, before its time is stamped.
#[derive(Debug)]
pub struct Signal {
    pub endpoint: Endpoint,
    pub kind: String,
    pub state: Option<String>,
    pub message: String,
    pub source: String,
}

/// `api_base` without trailing slashes.
pub open spec fn base_of(api_base: Seq<char>) -> Seq<char> {
    trim_end_matches(api_base, '/')
}

/// The API base is read without its trailing slashes: a base with a slash
/// more at its end gives the same endpoints.
pub proof fn law_base_ignores_trailing_slash(api_base: Seq<char>)
    ensures
        base_of(api_base + "/"@) == base_of(api_base),
{
    reveal_strlit("/");
    let s = api_base + "/"@;
    assert(s.last() == '/');
    assert(s.drop_last() =~= api_base);
}

fn base_chars(api_base: &String) -> (r: Vec<char>)
    ensures
        r@ == base_of(api_base@),
{
    crate::text::trim_end_matches_chars(&chars_of(api_base.as_str()), '/')
}

fn opt_text(s: Option<&str>) -> (r: Option<String>)
    ensures
        match s {
            Some(t) => r matches Some(x) && x@ == t@,
            None => r is None,
        },
{
    match s {
        Some(t) => Some(t.to_owned()),
        None => None,
    }
}

impl MissionControlClient {
    pub fn new(api_base: &str, auth_token: &str, instance_id: &str, agent_id: &str) -> (c: Self)
        ensures
            c.api_base@ == api_base@,
            c.auth_token@ == auth_token@,
            c.instance_id@ == instance_id@,
            c.agent_id@ == agent_id@,
    {
        MissionControlClient {
            api_base: api_base.to_owned(),
            auth_token: auth_token.to_owned(),
            instance_id: instance_id.to_owned(),
            agent_id: agent_id.to_owned(),
        }
    }

    /// `<base>/api/v1/signals/events`.
    pub fn events_url(&self) -> (u: String)
        ensures
            u@ == base_of(self.api_base@) + "/api/v1/signals/events"@,
    {
        let mut v = base_chars(&self.api_base);
        push_str(&mut v, "/api/v1/signals/events");
        string_of(&v)
    }

    /// `<base>/api/v1/signals/heartbeat`.
    pub fn heartbeat_url(&self) -> (u: String)
        ensures
            u@ == base_of(self.api_base@) + "/api/v1/signals/heartbeat"@,
    {
        let mut v = base_chars(&self.api_base);
        push_str(&mut v, "/api/v1/signals/heartbeat");
        string_of(&v)
    }

    /// `<base>/api/v1/programs/<instance_id>`.
    pub fn program_url(&self) -> (u: String)
        ensures
            u@ == base_of(self.api_base@) + "/api/v1/programs/"@ + self.instance_id@,
    {
        let mut v = base_chars(&self.api_base);
        push_str(&mut v, "/api/v1/programs/");
        push_str(&mut v, self.instance_id.as_str());
        string_of(&v)
    }

    /// `<base>/api/v1/agents/<instance_id>/<agent_id>/inbox`.
    pub fn inbox_url(&self) -> (u: String)
        ensures
            u@ == base_of(self.api_base@) + "/api/v1/agents/"@ + self.instance_id@ + "/"@ + self.agent_id@
                + "/inbox"@,
    {
        let mut v = base_chars(&self.api_base);
        push_str(&mut v, "/api/v1/agents/");
        push_str(&mut v, self.instance_id.as_str());
        push_str(&mut v, "/");
        push_str(&mut v, self.agent_id.as_str());
        push_str(&mut v, "/inbox");
        string_of(&v)
    }

    /// The `Authorization` header value: `Bearer <token>`.
    pub fn authorization(&self) -> (h: String)
        ensures
            h@ == "Bearer "@ + self.auth_token@,
    {
        let mut v = chars_of("Bearer ");
        push_str(&mut v, self.auth_token.as_str());
        string_of(&v)
    }

    /// A signal payload with the shared fields, stamped with `timestamp`.
    pub fn base_payload(&self, kind: &str, state: Option<&str>, message: &str, source: &str, timestamp: &str) -> (p: SignalPayload)
        ensures
            p.kind@ == kind@,
            p.instance_id@ == self.instance_id@,
            p.agent_id@ == self.agent_id@,
            p.message@ == message@,
            p.source@ == source@,
            p.timestamp@ == timestamp@,
            match state {
                Some(s) => p.state matches Some(x) && x@ == s@,
                None => p.state is None,
            },
    {
        SignalPayload {
            kind: kind.to_owned(),
            instance_id: self.instance_id.clone(),
            agent_id: self.agent_id.clone(),
            message: message.to_owned(),
            source: source.to_owned(),
            timestamp: timestamp.to_owned(),
            state: opt_text(state),
        }
    }
}

/// What a program fetch gives: the reply's text where the reply succeeded
/// and its text is not blank.
pub open spec fn program_of(success: bool, text: Option<Seq<char>>) -> Option<Seq<char>> {
    if success && text is Some && trim(text->0).len() > 0 {
        text
    } else {
        None
    }
}

/// What a program fetch gives, from whether the reply succeeded and its
/// text (absent where it could not be read).
pub fn program_from_reply(success: bool, text: Option<String>) -> (r: Option<String>)
    ensures
        match program_of(success, match text { Some(t) => Some(t@), None => None }) {
            Some(p) => r matches Some(s) && s@ == p,
            None => r is None,
        },
{
    if !success {
        return None;
    }
    match text {
        Some(t) => {
            if trim_chars(&chars_of(t.as_str())).len() > 0 {
                Some(t)
            } else {
                None
            }
        },
        None => None,
    }
}

/// The commands in an inbox reply: the string entries of its array, in
/// order; none where the reply failed or is not an array.
pub fn inbox_from_reply(success: bool, entries: Option<Vec<Option<String>>>) -> (r: Vec<String>)
    ensures
        !success || entries is None ==> r@.len() == 0,
        success && entries is Some ==> r@ == entries->0@.filter(|e: Option<String>| e is Some).map_values(
            |e: Option<String>| e->0,
        ),
{
    if !success {
        return Vec::new();
    }
    match entries {
        None => Vec::new(),
        Some(es) => {
            let ghost keep = |e: Option<String>| e is Some;
            let mut r: Vec<String> = Vec::new();
            let mut i: usize = 0;
            while i < es.len()
                invariant
                    i <= es.len(),
                    keep == |e: Option<String>| e is Some,
                    r@ == es@.take(i as int).filter(keep).map_values(|e: Option<String>| e->0),
                decreases es.len() - i,
            {
                assert(es@.take(i + 1).drop_last() =~= es@.take(i as int));
                reveal_with_fuel(Seq::<_>::filter, 1);
                match &es[i] {
                    Some(s) => {
                        r.push(s.clone());
                        assert(r@ =~= es@.take(i + 1).filter(keep).map_values(|e: Option<String>| e->0));
                    },
                    None => {
                        assert(r@ =~= es@.take(i + 1).filter(keep).map_values(|e: Option<String>| e->0));
                    },
                }
                i += 1;
            }
            assert(es@.take(es.len() as int) =~= es@);
            r
        },
    }
}

/// The agent events the observer sees, with what it reads of them.
#[derive(Debug)]
pub enum ObserverEvent {
    HeartbeatTick,
    AgentStart { provider: String, model: String },
    AgentEnd { provider: String, model: String, tokens_used: Option<u64> },
    TurnComplete,
    Error { component: String, message: String },
    LlmRequest,
    LlmResponse,
    ToolCallStart,
    ToolCall,
    ChannelMessage,
}

/// Observer backend that forwards agent lifecycle events as signals.
#[derive(Debug)]
pub struct MissionControlObserver {
    pub client: MissionControlClient,
    pub emit_task_signals: bool,
    pub emit_heartbeat: bool,
}

/// The signal an event becomes, as (endpoint, kind, state, message, source).
pub open spec fn signal_of(emit_task_signals: bool, emit_heartbeat: bool, e: ObserverEvent) -> Option<(Endpoint, Seq<char>, Option<Seq<char>>, Seq<char>, Seq<char>)> {
    match e {
        ObserverEvent::HeartbeatTick => if emit_heartbeat {
            Some((Endpoint::Heartbeat, "instance.heartbeat"@, Some("idle"@), "heartbeat"@, "heartbeat"@))
        } else {
            None
        },
        ObserverEvent::AgentStart { provider, model } => if emit_task_signals {
            Some((Endpoint::Events, "agent.lifecycle"@, Some("in_progress"@), "Agent started: "@ + provider@ + "/"@ + model@, "hook"@))
        } else {
            None
        },
        ObserverEvent::AgentEnd { provider, model, tokens_used } => if emit_task_signals {
            Some((Endpoint::Events, "task.status"@, Some("done"@), "Agent session ended: "@ + provider@ + "/"@ + model@ + match tokens_used {
                Some(t) => ", "@ + decimal(t as nat) + " tokens"@,
                None => Seq::empty(),
            }, "hook"@))
        } else {
            None
        },
        ObserverEvent::TurnComplete => if emit_task_signals {
            Some((Endpoint::Events, "task.status"@, Some("in_progress"@), "Turn completed"@, "hook"@))
        } else {
            None
        },
        ObserverEvent::Error { component, message } => if component@ != "provider"@ && emit_task_signals {
            Some((Endpoint::Events, "error.runtime"@, None, "["@ + component@ + "] "@ + message@, "hook"@))
        } else {
            None
        },
        _ => None,
    }
}

/// The fields of a signal.
pub open spec fn signal_view(s: Signal) -> (Endpoint, Seq<char>, Option<Seq<char>>, Seq<char>, Seq<char>) {
    (s.endpoint, s.kind@, match s.state { Some(t) => Some(t@), None => None }, s.message@, s.source@)
}

fn make_signal(endpoint: Endpoint, kind: &str, state: Option<&str>, message: &Vec<char>, source: &str) -> (s: Signal)
    ensures
        signal_view(s) == (endpoint, kind@, match state { Some(t) => Some(t@), None => None }, message@, source@),
{
    Signal {
        endpoint,
        kind: kind.to_owned(),
        state: opt_text(state),
        message: string_of(message),
        source: source.to_owned(),
    }
}

impl MissionControlObserver {
    pub fn new(client: MissionControlClient, emit_task_signals: bool, emit_heartbeat: bool) -> (o: Self)
        ensures
            o.client == client,
            o.emit_task_signals == emit_task_signals,
            o.emit_heartbeat == emit_heartbeat,
    {
        MissionControlObserver { client, emit_task_signals, emit_heartbeat }
    }

    pub fn name(&self) -> (s: &'static str)
        ensures
            s@ == "mission-control"@,
    {
        "mission-control"
    }

    /// The signal an event becomes, if any: heartbeats where enabled, task
    /// signals for starts, ends, turns and errors where enabled; provider
    /// errors and the finer-grained events are not forwarded.
    pub fn signal_for(&self, event: &ObserverEvent) -> (r: Option<Signal>)
        ensures
            match signal_of(self.emit_task_signals, self.emit_heartbeat, *event) {
                Some(v) => r matches Some(s) && signal_view(s) == v,
                None => r is None,
            },
    {
        match event {
            ObserverEvent::HeartbeatTick => {
                if !self.emit_heartbeat {
                    return None;
                }
                Some(make_signal(Endpoint::Heartbeat, "instance.heartbeat", Some("idle"), &chars_of("heartbeat"), "heartbeat"))
            },
            ObserverEvent::AgentStart { provider, model } => {
                if !self.emit_task_signals {
                    return None;
                }
                let mut m = chars_of("Agent started: ");
                push_str(&mut m, provider.as_str());
                push_str(&mut m, "/");
                push_str(&mut m, model.as_str());
                Some(make_signal(Endpoint::Events, "agent.lifecycle", Some("in_progress"), &m, "hook"))
            },
            ObserverEvent::AgentEnd { provider, model, tokens_used } => {
                if !self.emit_task_signals {
                    return None;
                }
                let mut m = chars_of("Agent session ended: ");
                push_str(&mut m, provider.as_str());
                push_str(&mut m, "/");
                push_str(&mut m, model.as_str());
                let ghost head = m@;
                match tokens_used {
                    Some(t) => {
                        push_str(&mut m, ", ");
                        push_chars(&mut m, &decimal_chars(*t));
                        push_str(&mut m, " tokens");
                        assert(m@ =~= head + (", "@ + decimal(*t as nat) + " tokens"@));
                    },
                    None => {
                        assert(m@ =~= head + Seq::<char>::empty());
                    },
                }
                Some(make_signal(Endpoint::Events, "task.status", Some("done"), &m, "hook"))
            },
            ObserverEvent::TurnComplete => {
                if !self.emit_task_signals {
                    return None;
                }
                Some(make_signal(Endpoint::Events, "task.status", Some("in_progress"), &chars_of("Turn completed"), "hook"))
            },
            ObserverEvent::Error { component, message } => {
                if crate::text::eq_chars(&chars_of(component.as_str()), &chars_of("provider")) {
                    return None;
                }
                if !self.emit_task_signals {
                    return None;
                }
                let mut m = chars_of("[");
                push_str(&mut m, component.as_str());
                push_str(&mut m, "] ");
                push_str(&mut m, message.as_str());
                Some(make_signal(Endpoint::Events, "error.runtime", None, &m, "hook"))
            },
            _ => None,
        }
    }
}


/// The states that signals carry: a start or a completed turn says the task
/// is in progress, only the end of a session says it is done, a heartbeat
/// says the instance is idle, and an error carries none. Task signals go to
/// the events endpoint under `agent.lifecycle` (starts) or `task.status`
/// (turns and ends), and none is sent where task signals are off.
pub proof fn law_signal_states(emit_task_signals: bool, emit_heartbeat: bool, e: ObserverEvent)
    ensures
        signal_of(emit_task_signals, emit_heartbeat, e) matches Some(sig) ==> (sig.2 == Some("done"@)
            <==> e is AgentEnd),
        signal_of(emit_task_signals, emit_heartbeat, e) matches Some(sig) ==> (sig.2 == Some("in_progress"@)
            <==> (e is AgentStart || e is TurnComplete)),
        emit_task_signals && (e is AgentStart || e is TurnComplete || e is AgentEnd) ==> (signal_of(
            emit_task_signals,
            emit_heartbeat,
            e,
        ) matches Some(sig) && sig.0 == Endpoint::Events && sig.4 == "hook"@ && sig.1 == if e is AgentStart {
            "agent.lifecycle"@
        } else {
            "task.status"@
        }),
        emit_heartbeat && e is HeartbeatTick ==> (signal_of(emit_task_signals, emit_heartbeat, e) matches Some(sig)
            && sig.0 == Endpoint::Heartbeat && sig.2 == Some("idle"@)),
        e is Error ==> (signal_of(emit_task_signals, emit_heartbeat, e) matches Some(sig) ==> sig.2 is None),
        !emit_task_signals && !(e is HeartbeatTick) ==> signal_of(emit_task_signals, emit_heartbeat, e) is None,
        !emit_heartbeat && e is HeartbeatTick ==> signal_of(emit_task_signals, emit_heartbeat, e) is None,
        e matches ObserverEvent::AgentStart { provider, model } ==> (signal_of(emit_task_signals, emit_heartbeat, e)
            matches Some(sig) ==> sig.3 == "Agent started: "@ + provider@ + "/"@ + model@),
        e matches ObserverEvent::AgentEnd { provider, model, tokens_used } ==> (signal_of(
            emit_task_signals,
            emit_heartbeat,
            e,
        ) matches Some(sig) ==> sig.3.take(21 + provider@.len() as int + 1 + model@.len() as int) == "Agent session ended: "@
            + provider@ + "/"@ + model@ && (tokens_used is None <==> sig.3.len() == 21 + provider@.len() + 1
            + model@.len())),
        e matches ObserverEvent::Error { component, message } ==> (component@ == "provider"@ ==> signal_of(
            emit_task_signals,
            emit_heartbeat,
            e,
        ) is None),
        e matches ObserverEvent::Error { component, message } ==> (emit_task_signals && component@ != "provider"@
            ==> (signal_of(emit_task_signals, emit_heartbeat, e) matches Some(sig) && sig.0 == Endpoint::Events
            && sig.1 == "error.runtime"@ && sig.3 == "["@ + component@ + "] "@ + message@)),
        (e is LlmRequest || e is LlmResponse || e is ToolCallStart || e is ToolCall || e is ChannelMessage)
            ==> signal_of(emit_task_signals, emit_heartbeat, e) is None,
{
    reveal_strlit("Agent session ended: ");
    reveal_strlit("/");
    reveal_strlit(", ");
    reveal_strlit(" tokens");
    if let ObserverEvent::AgentEnd { provider, model, tokens_used } = e {
        let head = "Agent session ended: "@ + provider@ + "/"@ + model@;
        let tail = match tokens_used {
            Some(t) => ", "@ + decimal(t as nat) + " tokens"@,
            None => Seq::empty(),
        };
        assert((head + tail).take(head.len() as int) =~= head);
    }
    reveal_strlit("done");
    reveal_strlit("in_progress");
    reveal_strlit("idle");
    assert("done"@[0] != "in_progress"@[0]);
    assert("done"@[0] != "idle"@[0] || "done"@[1] != "idle"@[1]);
    assert("in_progress"@[0] == "idle"@[0] && "in_progress"@[1] != "idle"@[1]);
}

} // verus!
