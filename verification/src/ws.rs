//! The chat WebSocket's decisions: the sub-protocol it answers with, the
//! token it checks, which model a `hint:` alias routes to, and which client
//! frames carry a message for the agent, and what the socket sends and
//! broadcasts for each frame and each run.

use vstd::prelude::*;
use crate::text::{chars_of, eq_chars, push_str, split_chars, split_on, starts_with, starts_with_chars, string_of, trim, trim_chars, views, copy_range};

verus! {

/// The query string of `GET /ws/chat`.
#[derive(Debug)]
pub struct WsQuery {
    pub token: Option<String>,
    pub session_id: Option<String>,
    /// Optional delegate agent id (a key of the `[agents.*]` config section).
    pub agent_id: Option<String>,
}

/// The sub-protocol the chat socket speaks.
pub fn ws_protocol() -> (s: &'static str)
    ensures
        s@ == "zeroclaw.v1"@,
{
    "zeroclaw.v1"
}

/// Whether a `Sec-WebSocket-Protocol` header lists our sub-protocol: some
/// comma-separated entry, trimmed, is `zeroclaw.v1`.
pub open spec fn lists_protocol(header: Seq<char>) -> bool {
    exists|k: int|
        0 <= k < split_on(header, ',').len() && trim(#[trigger] split_on(header, ',')[k]) == "zeroclaw.v1"@
}

/// Whether the client asked for our sub-protocol, so that it is echoed.
pub fn wants_protocol(header: Option<&str>) -> (b: bool)
    ensures
        b == match header {
            Some(h) => lists_protocol(h@),
            None => false,
        },
{
    match header {
        None => false,
        Some(h) => {
            let pieces = split_chars(&chars_of(h), ',');
            let want = chars_of("zeroclaw.v1");
            let mut k: usize = 0;
            while k < pieces.len()
                invariant
                    k <= pieces.len(),
                    header == Some(h),
                    views(pieces@) == split_on(h@, ','),
                    want@ == "zeroclaw.v1"@,
                    forall|t: int| 0 <= t < k ==> trim(#[trigger] split_on(h@, ',')[t]) != "zeroclaw.v1"@,
                decreases pieces.len() - k,
            {
                assert(views(pieces@)[k as int] == pieces@[k as int]@);
                if eq_chars(&trim_chars(&pieces[k]), &want) {
                    assert(trim(split_on(h@, ',')[k as int]) == "zeroclaw.v1"@);
                    assert(k < split_on(h@, ',').len());
                    assert(lists_protocol(h@));
                    return true;
                }
                k += 1;
            }
            false
        },
    }
}

impl WsQuery {
    /// The token checked where pairing is required: the one given, or the
    /// empty text.
    pub fn pairing_token(&self) -> (t: String)
        ensures
            match self.token {
                Some(x) => t@ == x@,
                None => t@.len() == 0,
            },
    {
        match &self.token {
            Some(t) => t.clone(),
            None => String::new(),
        }
    }
}

/// A `[[model_routes]]` entry: models named `hint:<hint>` go to
/// `provider`/`model`.
#[derive(Debug)]
pub struct ModelRoute {
    pub hint: String,
    pub provider: String,
    pub model: String,
}

/// The first route whose hint is `hint`.
pub open spec fn route_for(routes: Seq<ModelRoute>, hint: Seq<char>) -> Option<ModelRoute>
    decreases routes.len(),
{
    if routes.len() == 0 {
        None
    } else if routes[0].hint@ == hint {
        Some(routes[0])
    } else {
        route_for(routes.drop_first(), hint)
    }
}

/// The provider and model a delegate agent runs with: a model named
/// `hint:<h>` takes the provider and model of the first route for `h`,
/// where there is one; otherwise both stay as configured.
pub open spec fn routed(provider: Seq<char>, model: Seq<char>, routes: Seq<ModelRoute>) -> (Seq<char>, Seq<char>) {
    if starts_with(model, "hint:"@) && route_for(routes, model.skip(5)) is Some {
        let r = route_for(routes, model.skip(5))->0;
        (r.provider@, r.model@)
    } else {
        (provider, model)
    }
}

/// The provider and model a delegate agent runs with.
pub fn resolve_route(provider: &str, model: &str, routes: &[ModelRoute]) -> (r: (String, String))
    ensures
        (r.0@, r.1@) == routed(provider@, model@, routes@),
{
    let m = chars_of(model);
    let prefix = chars_of("hint:");
    proof {
        reveal_strlit("hint:");
    }
    if starts_with_chars(&m, &prefix) {
        let hint = copy_range(&m, 5, m.len());
        assert(hint@ =~= m@.skip(5));
        let mut k: usize = 0;
        assert(routes@.skip(0) =~= routes@);
        while k < routes.len()
            invariant
                k <= routes@.len(),
                route_for(routes@, hint@) == route_for(routes@.skip(k as int), hint@),
                hint@ == m@.skip(5),
                m@ == model@,
                starts_with(model@, "hint:"@),
            decreases routes.len() - k,
        {
            let ghost rest = routes@.skip(k as int);
            assert(rest[0] == routes@[k as int]);
            assert(rest.drop_first() =~= routes@.skip(k + 1));
            if eq_chars(&chars_of(routes[k].hint.as_str()), &hint) {
                assert(route_for(rest, hint@) == Some(routes@[k as int]));
                assert(m@.skip(5) == hint@);
                assert(route_for(routes@, model@.skip(5)) == Some(routes@[k as int]));
                return (routes[k].provider.clone(), routes[k].model.clone());
            }
            k += 1;
        }
    }
    (provider.to_owned(), model.to_owned())
}

/// What the agent reads of a client frame: its `type` and `content`
/// fields where they are strings.
#[derive(Debug)]
pub struct ChatFrame {
    pub kind: Option<String>,
    pub content: Option<String>,
}

/// The message a frame carries: its content, where its type is `message`
/// and its content is not empty.
pub open spec fn message_of(frame: ChatFrame) -> Option<Seq<char>> {
    match (frame.kind, frame.content) {
        (Some(k), Some(c)) => if k@ == "message"@ && c@.len() > 0 {
            Some(c@)
        } else {
            None
        },
        _ => None,
    }
}

/// The message a frame carries for the agent: its content, where its
/// type is `message` and its content is not empty.
pub fn chat_content(frame: &ChatFrame) -> (r: Option<String>)
    ensures
        match message_of(*frame) {
            Some(c) => r matches Some(x) && x@ == c,
            None => r is None,
        },
{
    let is_message = match &frame.kind {
        Some(k) => eq_chars(&chars_of(k.as_str()), &chars_of("message")),
        None => false,
    };
    if !is_message {
        return None;
    }
    match &frame.content {
        Some(c) => {
            if chars_of(c.as_str()).len() > 0 {
                Some(c.clone())
            } else {
                None
            }
        },
        None => None,
    }
}

/// The error sent where a delegate agent is not configured.
pub fn unknown_agent_message(id: &str) -> (s: String)
    ensures
        s@ == "Agent '"@ + id@ + "' not found in configuration"@,
{
    let mut v = chars_of("Agent '");
    push_str(&mut v, id);
    push_str(&mut v, "' not found in configuration");
    string_of(&v)
}

/// The error sent where a delegate agent's provider cannot be created.
pub fn provider_failure_message(id: &str, error: &str) -> (s: String)
    ensures
        s@ == "Failed to create provider for agent '"@ + id@ + "': "@ + error@,
{
    let mut v = chars_of("Failed to create provider for agent '");
    push_str(&mut v, id);
    push_str(&mut v, "': ");
    push_str(&mut v, error);
    string_of(&v)
}

/// What the socket does with a client text frame.
#[derive(Debug)]
pub enum FrameStep {
    /// Answer with an error frame carrying `message`, then read on.
    ReplyError { message: String },
    /// Nothing for the agent: read the next frame.
    Skip,
    /// Run the agent on `content`.
    Run { content: String },
}

/// What the socket does with a client text frame, from what it reads of
/// the frame (`None` where the text is not JSON): an `Invalid JSON` error,
/// a run on the frame's message, or nothing.
pub fn frame_step(frame: Option<ChatFrame>) -> (r: FrameStep)
    ensures
        match frame {
            None => r matches FrameStep::ReplyError { message } && message@ == "Invalid JSON"@,
            Some(f) => match message_of(f) {
                Some(c) => r matches FrameStep::Run { content } && content@ == c,
                None => r is Skip,
            },
        },
{
    match frame {
        None => FrameStep::ReplyError { message: "Invalid JSON".to_owned() },
        Some(f) => match chat_content(&f) {
            Some(c) => FrameStep::Run { content: c },
            None => FrameStep::Skip,
        },
    }
}

/// A frame sent to the client.
#[derive(Debug)]
pub enum Reply {
    /// `{"type":"done","full_response":...}`.
    Done { full_response: String },
    /// `{"type":"error","message":...}`.
    Error { message: String },
}

/// An event broadcast to the gateway's listeners.
#[derive(Debug)]
pub enum GatewayEvent {
    /// `{"type":"agent_start","provider":...,"model":...}`.
    AgentStart { provider: String, model: String },
    /// `{"type":"agent_end","provider":...,"model":...}`.
    AgentEnd { provider: String, model: String },
    /// `{"type":"error","component":...,"message":...}`.
    Error { component: String, message: String },
}

/// The event broadcast before a run: its provider label and model.
pub fn start_event(provider_label: &str, model: &str) -> (e: GatewayEvent)
    ensures
        e matches GatewayEvent::AgentStart { provider, model: m } && provider@ == provider_label@ && m@ == model@,
{
    GatewayEvent::AgentStart { provider: provider_label.to_owned(), model: model.to_owned() }
}

/// The reply sent where preparing the messages for the provider failed.
pub fn prep_failure(error: &str) -> (r: Reply)
    ensures
        r matches Reply::Error { message } && message@ == "Multimodal prep failed: "@ + error@,
{
    let mut v = chars_of("Multimodal prep failed: ");
    push_str(&mut v, error);
    Reply::Error { message: string_of(&v) }
}

/// What the socket sends and broadcasts once a run ended: the response
/// and the end of the run, or the error (already cleaned of secrets) both
/// to the client and as an error of the `ws_chat` component.
pub fn turn_end(result: Result<String, String>, provider_label: &str, model: &str) -> (r: (Reply, GatewayEvent))
    ensures
        match result {
            Ok(resp) => {
                &&& r.0 matches Reply::Done { full_response } && full_response == resp
                &&& r.1 matches GatewayEvent::AgentEnd { provider, model: m } && provider@ == provider_label@
                    && m@ == model@
            },
            Err(e) => {
                &&& r.0 matches Reply::Error { message } && message == e
                &&& r.1 matches GatewayEvent::Error { component, message } && component@ == "ws_chat"@
                    && message == e
            },
        },
{
    match result {
        Ok(resp) => (
            Reply::Done { full_response: resp },
            GatewayEvent::AgentEnd { provider: provider_label.to_owned(), model: model.to_owned() },
        ),
        Err(e) => {
            let copy = e.clone();
            (Reply::Error { message: e }, GatewayEvent::Error { component: "ws_chat".to_owned(), message: copy })
        },
    }
}

/// The provider label of the default agent: the configured default
/// provider, or `unknown`.
pub fn default_provider_label(default_provider: Option<&str>) -> (s: String)
    ensures
        match default_provider {
            Some(p) => s@ == p@,
            None => s@ == "unknown"@,
        },
{
    match default_provider {
        Some(p) => p.to_owned(),
        None => "unknown".to_owned(),
    }
}

/// A delegate agent's system prompt: the one configured, or none.
pub fn delegate_system_prompt(configured: Option<&str>) -> (s: String)
    ensures
        match configured {
            Some(p) => s@ == p@,
            None => s@.len() == 0,
        },
{
    match configured {
        Some(p) => p.to_owned(),
        None => String::new(),
    }
}


/// `split_on` across a separator: the pieces of `a`, then those of `b`.
proof fn lemma_split_across(a: Seq<char>, b: Seq<char>, c: char)
    ensures
        split_on(a + seq![c] + b, c) == split_on(a, c) + split_on(b, c),
    decreases a.len(),
{
    let s = a + seq![c] + b;
    crate::text::lemma_find_char_bounds(s, c);
    crate::text::lemma_find_char_bounds(a, c);
    let k = crate::text::find_char(a, c);
    if k < a.len() {
        assert forall|i: int| 0 <= i < k implies #[trigger] s[i] != c by {
            assert(s[i] == a[i]);
        }
        assert(s[k] == a[k]);
        crate::text::lemma_find_char(s, c, k);
        let a2 = a.skip(k + 1);
        lemma_split_across(a2, b, c);
        assert(s.skip(k + 1) =~= a2 + seq![c] + b);
        assert(s.take(k) =~= a.take(k));
        assert(split_on(s, c) =~= split_on(a, c) + split_on(b, c));
    } else {
        assert forall|i: int| 0 <= i < a.len() implies #[trigger] s[i] != c by {
            assert(s[i] == a[i]);
        }
        assert(s[a.len() as int] == c);
        crate::text::lemma_find_char(s, c, a.len() as int);
        assert(s.take(a.len() as int) =~= a);
        assert(s.skip(a.len() as int + 1) =~= b);
        assert(split_on(a, c) == seq![a]);
        assert(split_on(s, c) =~= split_on(a, c) + split_on(b, c));
    }
}

/// The protocol is asked for exactly where some comma-separated entry of
/// the header, trimmed, is `zeroclaw.v1`, wherever it stands; an entry
/// added before or after the others keeps it asked for.
pub proof fn law_protocol_in_any_entry(h: Seq<char>, k: int, x: Seq<char>)
    ensures
        0 <= k < split_on(h, ',').len() && trim(split_on(h, ',')[k]) == "zeroclaw.v1"@ ==> lists_protocol(h),
        lists_protocol(h) ==> exists|j: int|
            0 <= j < split_on(h, ',').len() && trim(#[trigger] split_on(h, ',')[j]) == "zeroclaw.v1"@,
        lists_protocol(h) ==> lists_protocol(h + seq![','] + x),
        lists_protocol(h) ==> lists_protocol(x + seq![','] + h),
        lists_protocol(x) ==> lists_protocol(h + seq![','] + x),
{
    lemma_split_across(h, x, ',');
    lemma_split_across(x, h, ',');
    let sh = split_on(h, ',');
    let sx = split_on(x, ',');
    if lists_protocol(h) {
        let j = choose|j: int| 0 <= j < sh.len() && trim(#[trigger] sh[j]) == "zeroclaw.v1"@;
        assert((sh + sx)[j] == sh[j]);
        assert((sx + sh)[sx.len() + j] == sh[j]);
    }
    if lists_protocol(x) {
        let j = choose|j: int| 0 <= j < sx.len() && trim(#[trigger] sx[j]) == "zeroclaw.v1"@;
        assert((sh + sx)[sh.len() + j] == sx[j]);
    }
}

} // verus!
