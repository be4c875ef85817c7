//! The connection dispatcher's state and the protocol state machine.
//!
//! A [`Server`] owns every live session and the registry of usernames. Each
//! event that the caller observes on the network (a new connection, a decoded
//! message, a closed or failed connection, the passage of time, a shutdown
//! request) is handed to one method, which updates the state and returns the
//! [`Action`]s that the caller must carry out: messages to send and
//! connections to close.
use vstd::prelude::*;
use vstd::utf8::*;
use crate::message::{ClientMsg, ClientToServerMsg, ServerMsg, ServerToClientMsg};
use crate::codec::{Decoded, FrameDecoder, Parsed, decode_client};
use crate::registry::{
    entries_view,
    Registry,
    has_name,
    name_index,
    names_of,
    names_unique,
    others,
    str_eq,
    lemma_name_index,
};

verus! {

/// The longest username accepted, in UTF-8 bytes.
pub const MAX_NAME_BYTES: usize = 15;

/// How long a new connection may take to send its `Join`, in milliseconds.
pub const JOIN_TIMEOUT_MS: u64 = 2000;

/// How long a named client may stay silent before it is disconnected, in
/// milliseconds, unless configured otherwise.
pub const DEFAULT_IDLE_TIMEOUT_MS: u64 = 3000;

/// The limits that the server enforces.
#[derive(Debug, Clone, Copy, PartialEq, Eq)]
pub struct Config {
    /// The most connections that may be open at once.
    pub max_clients: usize,
    /// How long a new connection may take to join, in milliseconds.
    pub join_timeout_ms: u64,
    /// How long a named client may stay silent, in milliseconds.
    pub idle_timeout_ms: u64,
}

impl Config {
    /// The default limits, for at most `max_clients` connections.
    pub fn new(max_clients: usize) -> (r: Config)
        ensures
            r.max_clients == max_clients,
            r.join_timeout_ms == JOIN_TIMEOUT_MS,
            r.idle_timeout_ms == DEFAULT_IDLE_TIMEOUT_MS,
    {
        Config { max_clients, join_timeout_ms: JOIN_TIMEOUT_MS, idle_timeout_ms: DEFAULT_IDLE_TIMEOUT_MS }
    }
}

/// A session as plain values.
pub struct SessionView {
    pub token: u64,
    /// `None` until the client has joined.
    pub name: Option<Seq<char>>,
    /// When the connection was accepted, in milliseconds.
    pub accepted_at: u64,
    /// When the last message from the client was processed, in milliseconds.
    pub last_activity: u64,
}

/// The server's state as plain values: its sessions, in the order in which
/// they were accepted, and the registry.
pub struct State {
    pub sessions: Seq<SessionView>,
    pub registry: Seq<(Seq<char>, u64)>,
}

/// An instruction to the caller, as plain values.
pub enum ActionView {
    Send(u64, ServerMsg),
    Close(u64, Option<ServerMsg>),
}

/// The notice to a connection that did not join in time.
pub open spec fn join_timeout_text() -> Seq<char> {
    "Timed out waiting for Join"@
}

/// The notice to a client that stayed silent for too long.
pub open spec fn idle_timeout_text() -> Seq<char> {
    "Timed out due to inactivity"@
}

/// The notice to a connection that sent a message out of turn.
pub open spec fn unexpected_text() -> Seq<char> {
    "Unexpected message received"@
}

/// The notice to a connection whose username is held by another.
pub open spec fn name_taken_text() -> Seq<char> {
    "Username already taken"@
}

/// The notice to a connection whose username is over the length limit.
pub open spec fn name_too_long_text() -> Seq<char> {
    "Username too long"@
}

/// The reply to a direct message addressed to its own sender.
pub open spec fn dm_self_text() -> Seq<char> {
    "Cannot send a DM to yourself"@
}

/// The reply to a direct message addressed to nobody who has joined.
pub open spec fn no_such_user_text() -> Seq<char> {
    "User does not exist"@
}

/// The notice to a connection refused because the server is full.
pub open spec fn server_full_text() -> Seq<char> {
    "Server is full"@
}

/// The notice to every connection when the server shuts down.
pub open spec fn shutdown_text() -> Seq<char> {
    "Server is shutting down"@
}

/// Some session has the token `t`.
pub open spec fn has_token(ss: Seq<SessionView>, t: u64) -> bool {
    exists|i: int| 0 <= i < ss.len() && #[trigger] ss[i].token == t
}

/// The position of the session with the token `t`.
pub open spec fn token_index(ss: Seq<SessionView>, t: u64) -> int {
    choose|i: int| 0 <= i < ss.len() && #[trigger] ss[i].token == t
}

/// Some session with the token `t` has joined as `name`.
pub open spec fn has_named_session(ss: Seq<SessionView>, name: Seq<char>, t: u64) -> bool {
    exists|i: int| 0 <= i < ss.len() && #[trigger] ss[i].token == t && ss[i].name == Some(name)
}

/// Tokens are unique, usernames are unique and within the length limit, and
/// the registry holds exactly the joined sessions.
pub open spec fn state_wf(st: State) -> bool {
    &&& names_unique(st.registry)
    &&& forall|j: int|
        0 <= j < st.registry.len() ==> encode_utf8((#[trigger] st.registry[j]).0).len()
            <= MAX_NAME_BYTES
    &&& forall|i: int, j: int|
        0 <= i < st.sessions.len() && 0 <= j < st.sessions.len() && i != j
            ==> #[trigger] st.sessions[i].token != #[trigger] st.sessions[j].token
    &&& forall|i: int|
        0 <= i < st.sessions.len() && (#[trigger] st.sessions[i]).name is Some
            ==> st.registry.contains((st.sessions[i].name->0, st.sessions[i].token))
    &&& forall|j: int|
        0 <= j < st.registry.len() ==> has_named_session(
            st.sessions,
            (#[trigger] st.registry[j]).0,
            st.registry[j].1,
        )
}

/// The state without the session at position `i`, and without its registry
/// entry if it had joined.
pub open spec fn drop_session(st: State, i: int) -> State {
    State {
        sessions: st.sessions.remove(i),
        registry: match st.sessions[i].name {
            Some(u) => st.registry.remove(name_index(st.registry, u)),
            None => st.registry,
        },
    }
}

/// The one message `m` to the connection `t`.
pub open spec fn reply(t: u64, m: ServerMsg) -> Seq<ActionView> {
    seq![ActionView::Send(t, m)]
}

/// The connection `t` closed with the error `text`.
pub open spec fn reject(t: u64, text: Seq<char>) -> Seq<ActionView> {
    seq![ActionView::Close(t, Some(ServerMsg::Error(text)))]
}

/// The message from `from` sent to each of `targets`, in order.
pub open spec fn broadcast_sends(
    targets: Seq<(Seq<char>, u64)>,
    from: Seq<char>,
    message: Seq<char>,
) -> Seq<ActionView> {
    targets.map_values(|e: (Seq<char>, u64)| ActionView::Send(e.1, ServerMsg::Message(from, message)))
}

/// The state after a new connection `token` is accepted at `now`, and what
/// must be done.
pub open spec fn accept_spec(cfg: Config, st: State, token: u64, now: u64) -> (State, Seq<ActionView>) {
    if st.sessions.len() >= cfg.max_clients {
        (st, reject(token, server_full_text()))
    } else {
        (
            State {
                sessions: st.sessions.push(
                    SessionView { token, name: None, accepted_at: now, last_activity: now },
                ),
                registry: st.registry,
            },
            seq![],
        )
    }
}

/// The join window of `s` has passed at `now`.
pub open spec fn join_expired(cfg: Config, s: SessionView, now: u64) -> bool {
    now as int - s.accepted_at as int > cfg.join_timeout_ms as int
}

/// `s` has been silent for too long at `now`.
pub open spec fn idle_expired(cfg: Config, s: SessionView, now: u64) -> bool {
    now as int - s.last_activity as int > cfg.idle_timeout_ms as int
}

/// `s` is due to be disconnected at `now`: it has not joined within the join
/// window, or it has joined and been silent for too long.
pub open spec fn expired(cfg: Config, s: SessionView, now: u64) -> bool {
    match s.name {
        None => join_expired(cfg, s, now),
        Some(_) => idle_expired(cfg, s, now),
    }
}

/// The state after the session `token` sent `msg` at `now`, and what must be
/// done.
pub open spec fn message_spec(cfg: Config, st: State, token: u64, msg: ClientMsg, now: u64) -> (
    State,
    Seq<ActionView>,
) {
    if !has_token(st.sessions, token) {
        (st, seq![])
    } else {
        let i = token_index(st.sessions, token);
        let s = st.sessions[i];
        match s.name {
            None => match msg {
                ClientMsg::Join(name) => if join_expired(cfg, s, now) {
                    (drop_session(st, i), reject(token, join_timeout_text()))
                } else if encode_utf8(name).len() > MAX_NAME_BYTES {
                    (drop_session(st, i), reject(token, name_too_long_text()))
                } else if has_name(st.registry, name) {
                    (drop_session(st, i), reject(token, name_taken_text()))
                } else {
                    (
                        State {
                            sessions: st.sessions.update(
                                i,
                                SessionView {
                                    token,
                                    name: Some(name),
                                    accepted_at: s.accepted_at,
                                    last_activity: now,
                                },
                            ),
                            registry: st.registry.push((name, token)),
                        },
                        reply(token, ServerMsg::Welcome),
                    )
                },
                _ => (drop_session(st, i), reject(token, unexpected_text())),
            },
            Some(u) => {
                let touched = State {
                    sessions: st.sessions.update(
                        i,
                        SessionView {
                            token,
                            name: s.name,
                            accepted_at: s.accepted_at,
                            last_activity: now,
                        },
                    ),
                    registry: st.registry,
                };
                match msg {
                    ClientMsg::Join(_) => (drop_session(st, i), reject(token, unexpected_text())),
                    ClientMsg::Ping => (touched, reply(token, ServerMsg::Pong)),
                    ClientMsg::ListUsers => (
                        touched,
                        reply(token, ServerMsg::UserList(names_of(st.registry))),
                    ),
                    ClientMsg::SendDM(to, message) => if to == u {
                        (touched, reply(token, ServerMsg::Error(dm_self_text())))
                    } else if has_name(st.registry, to) {
                        (
                            touched,
                            reply(
                                st.registry[name_index(st.registry, to)].1,
                                ServerMsg::Message(u, message),
                            ),
                        )
                    } else {
                        (touched, reply(token, ServerMsg::Error(no_such_user_text())))
                    },
                    ClientMsg::Broadcast(message) => (
                        touched,
                        broadcast_sends(others(st.registry, u), u, message),
                    ),
                }
            },
        }
    }
}

/// The state after the connection `token` ended (end of stream, an I/O error
/// or a frame that held no message), and what must be done.
pub open spec fn closed_spec(st: State, token: u64) -> (State, Seq<ActionView>) {
    if has_token(st.sessions, token) {
        (drop_session(st, token_index(st.sessions, token)), seq![ActionView::Close(token, None)])
    } else {
        (st, seq![])
    }
}

/// The state after the session `token` is disconnected at `now` if it is due,
/// and what must be done.
pub open spec fn time_out_spec(cfg: Config, st: State, token: u64, now: u64) -> (
    State,
    Seq<ActionView>,
) {
    if has_token(st.sessions, token) && expired(
        cfg,
        st.sessions[token_index(st.sessions, token)],
        now,
    ) {
        let i = token_index(st.sessions, token);
        let text = if st.sessions[i].name is None {
            join_timeout_text()
        } else {
            idle_timeout_text()
        };
        (drop_session(st, i), reject(token, text))
    } else {
        (st, seq![])
    }
}

/// The tokens of the sessions of `ss` that are due at `now`, in order.
pub open spec fn expired_tokens(cfg: Config, ss: Seq<SessionView>, now: u64) -> Seq<u64>
    decreases ss.len(),
{
    if ss.len() == 0 {
        seq![]
    } else {
        let init = expired_tokens(cfg, ss.drop_last(), now);
        if expired(cfg, ss.last(), now) {
            init.push(ss.last().token)
        } else {
            init
        }
    }
}

/// The state after each of `tokens` in turn is disconnected at `now` if due,
/// and everything that must be done.
pub open spec fn time_out_all(cfg: Config, st: State, tokens: Seq<u64>, now: u64) -> (
    State,
    Seq<ActionView>,
)
    decreases tokens.len(),
{
    if tokens.len() == 0 {
        (st, seq![])
    } else {
        let (st1, a1) = time_out_all(cfg, st, tokens.drop_last(), now);
        let (st2, a2) = time_out_spec(cfg, st1, tokens.last(), now);
        (st2, a1 + a2)
    }
}

/// The state after the passage of time up to `now`, and what must be done.
pub open spec fn tick_spec(cfg: Config, st: State, now: u64) -> (State, Seq<ActionView>) {
    time_out_all(cfg, st, expired_tokens(cfg, st.sessions, now), now)
}

/// Every connection closed with a notice, and nothing left.
pub open spec fn shutdown_spec(st: State) -> (State, Seq<ActionView>) {
    (
        State { sessions: seq![], registry: seq![] },
        st.sessions.map_values(
            |s: SessionView| ActionView::Close(s.token, Some(ServerMsg::Error(shutdown_text()))),
        ),
    )
}

/// With unique tokens, the session at `i` is the one found for its token.
pub proof fn lemma_token_index(ss: Seq<SessionView>, i: int)
    requires
        forall|a: int, b: int|
            0 <= a < ss.len() && 0 <= b < ss.len() && a != b ==> #[trigger] ss[a].token
                != #[trigger] ss[b].token,
        0 <= i < ss.len(),
    ensures
        has_token(ss, ss[i].token),
        token_index(ss, ss[i].token) == i,
{
    assert(ss[i].token == ss[i].token);
}

/// Dropping a session keeps the state well formed.
pub proof fn lemma_drop_session_wf(st: State, i: int)
    requires
        state_wf(st),
        0 <= i < st.sessions.len(),
    ensures
        state_wf(drop_session(st, i)),
{
    let ss = st.sessions;
    let reg = st.registry;
    let d = drop_session(st, i);
    let s = ss[i];
    // the registry index of the dropped session's entry, if any
    let k = match s.name {
        Some(u) => name_index(reg, u),
        None => -1,
    };
    if let Some(u) = s.name {
        assert(reg.contains((u, s.token)));
        let j = choose|j: int| 0 <= j < reg.len() && reg[j] == (u, s.token);
        lemma_name_index(reg, j);
        assert(k == j);
    }
    assert forall|a: int, b: int|
        0 <= a < d.registry.len() && 0 <= b < d.registry.len() && a != b implies
        #[trigger] d.registry[a].0 != #[trigger] d.registry[b].0 by {
        if s.name is Some {
            let a2 = if a < k { a } else { a + 1 };
            let b2 = if b < k { b } else { b + 1 };
            assert(d.registry[a] == reg[a2]);
            assert(d.registry[b] == reg[b2]);
        }
    }
    assert forall|b: int| 0 <= b < d.registry.len() implies encode_utf8(
        (#[trigger] d.registry[b]).0,
    ).len() <= MAX_NAME_BYTES by {
        let b2 = if s.name is Some && b >= k { b + 1 } else { b };
        assert(d.registry[b] == reg[b2]);
    }
    assert forall|a: int, b: int|
        0 <= a < d.sessions.len() && 0 <= b < d.sessions.len() && a != b implies
        #[trigger] d.sessions[a].token != #[trigger] d.sessions[b].token by {
        let a2 = if a < i { a } else { a + 1 };
        let b2 = if b < i { b } else { b + 1 };
        assert(d.sessions[a] == ss[a2]);
        assert(d.sessions[b] == ss[b2]);
    }
    assert forall|a: int|
        0 <= a < d.sessions.len() && (#[trigger] d.sessions[a]).name is Some implies
        d.registry.contains((d.sessions[a].name->0, d.sessions[a].token)) by {
        let a2 = if a < i { a } else { a + 1 };
        assert(d.sessions[a] == ss[a2]);
        let e = (ss[a2].name->0, ss[a2].token);
        assert(reg.contains(e));
        let j = choose|j: int| 0 <= j < reg.len() && reg[j] == e;
        if s.name is Some {
            assert(j != k);
            let j2 = if j < k { j } else { j - 1 };
            assert(d.registry[j2] == e);
        } else {
            assert(d.registry[j] == e);
        }
    }
    assert forall|b: int| 0 <= b < d.registry.len() implies has_named_session(
        d.sessions,
        (#[trigger] d.registry[b]).0,
        d.registry[b].1,
    ) by {
        let b2 = if s.name is Some && b >= k { b + 1 } else { b };
        assert(d.registry[b] == reg[b2]);
        assert(has_named_session(ss, reg[b2].0, reg[b2].1));
        let a = choose|a: int|
            0 <= a < ss.len() && #[trigger] ss[a].token == reg[b2].1 && ss[a].name == Some(
                reg[b2].0,
            );
        if a == i {
            lemma_name_index(reg, b2);
        }
        assert(a != i);
        let a2 = if a < i { a } else { a - 1 };
        assert(d.sessions[a2] == ss[a]);
    }
}

/// Naming the unnamed session at position `i` with a free username keeps the
/// state well formed.
pub proof fn lemma_join_wf(st: State, i: int, name: Seq<char>, now: u64)
    requires
        state_wf(st),
        0 <= i < st.sessions.len(),
        st.sessions[i].name is None,
        !has_name(st.registry, name),
        encode_utf8(name).len() <= MAX_NAME_BYTES,
    ensures
        ({
            let s = st.sessions[i];
            state_wf(
                State {
                    sessions: st.sessions.update(
                        i,
                        SessionView {
                            token: s.token,
                            name: Some(name),
                            accepted_at: s.accepted_at,
                            last_activity: now,
                        },
                    ),
                    registry: st.registry.push((name, s.token)),
                },
            )
        }),
{
    let s = st.sessions[i];
    let ss = st.sessions.update(
        i,
        SessionView { token: s.token, name: Some(name), accepted_at: s.accepted_at, last_activity: now },
    );
    let reg = st.registry.push((name, s.token));
    assert forall|j: int| 0 <= j < reg.len() implies encode_utf8((#[trigger] reg[j]).0).len()
        <= MAX_NAME_BYTES by {
        if j < reg.len() - 1 {
            assert(reg[j] == st.registry[j]);
        }
    }
    assert forall|a: int, b: int|
        0 <= a < reg.len() && 0 <= b < reg.len() && a != b implies #[trigger] reg[a].0
        != #[trigger] reg[b].0 by {
        if a == reg.len() - 1 {
            assert(st.registry[b].0 != name);
        } else if b == reg.len() - 1 {
            assert(st.registry[a].0 != name);
        }
    }
    assert forall|a: int, b: int|
        0 <= a < ss.len() && 0 <= b < ss.len() && a != b implies #[trigger] ss[a].token
        != #[trigger] ss[b].token by {
        assert(st.sessions[a].token != st.sessions[b].token);
    }
    assert forall|a: int| 0 <= a < ss.len() && (#[trigger] ss[a]).name is Some implies reg.contains(
        (ss[a].name->0, ss[a].token),
    ) by {
        if a == i {
            assert(reg[reg.len() - 1] == (name, s.token));
        } else {
            let e = (ss[a].name->0, ss[a].token);
            assert(st.registry.contains(e));
            let j = choose|j: int| 0 <= j < st.registry.len() && st.registry[j] == e;
            assert(reg[j] == e);
        }
    }
    assert forall|j: int| 0 <= j < reg.len() implies has_named_session(
        ss,
        (#[trigger] reg[j]).0,
        reg[j].1,
    ) by {
        if j == reg.len() - 1 {
            assert(ss[i].token == s.token);
        } else {
            assert(reg[j] == st.registry[j]);
            assert(has_named_session(st.sessions, st.registry[j].0, st.registry[j].1));
            let a = choose|a: int|
                0 <= a < st.sessions.len() && #[trigger] st.sessions[a].token == st.registry[j].1
                    && st.sessions[a].name == Some(st.registry[j].0);
            assert(a != i);
            assert(ss[a] == st.sessions[a]);
        }
    }
}

/// Recording activity on a session keeps the state well formed.
pub proof fn lemma_touch_wf(st: State, i: int, now: u64)
    requires
        state_wf(st),
        0 <= i < st.sessions.len(),
    ensures
        ({
            let s = st.sessions[i];
            state_wf(
                State {
                    sessions: st.sessions.update(
                        i,
                        SessionView {
                            token: s.token,
                            name: s.name,
                            accepted_at: s.accepted_at,
                            last_activity: now,
                        },
                    ),
                    registry: st.registry,
                },
            )
        }),
{
    let s = st.sessions[i];
    let ss = st.sessions.update(
        i,
        SessionView { token: s.token, name: s.name, accepted_at: s.accepted_at, last_activity: now },
    );
    assert forall|a: int, b: int|
        0 <= a < ss.len() && 0 <= b < ss.len() && a != b implies #[trigger] ss[a].token
        != #[trigger] ss[b].token by {
        assert(st.sessions[a].token != st.sessions[b].token);
    }
    assert forall|a: int| 0 <= a < ss.len() && (#[trigger] ss[a]).name is Some implies st.registry.contains(
        (ss[a].name->0, ss[a].token),
    ) by {
        assert(st.sessions[a].name is Some);
    }
    assert forall|j: int| 0 <= j < st.registry.len() implies has_named_session(
        ss,
        (#[trigger] st.registry[j]).0,
        st.registry[j].1,
    ) by {
        assert(has_named_session(st.sessions, st.registry[j].0, st.registry[j].1));
        let a = choose|a: int|
            0 <= a < st.sessions.len() && #[trigger] st.sessions[a].token == st.registry[j].1
                && st.sessions[a].name == Some(st.registry[j].0);
        assert(ss[a].token == st.sessions[a].token && ss[a].name == st.sessions[a].name);
    }
}

/// A connection's state: its token, its username once it has joined, when it
/// was accepted and when it was last heard from.
pub struct Session {
    token: u64,
    username: Option<String>,
    accepted_at: u64,
    last_activity: u64,
}

impl View for Session {
    type V = SessionView;

    closed spec fn view(&self) -> SessionView {
        SessionView {
            token: self.token,
            name: match self.username {
                Some(u) => Some(u@),
                None => None,
            },
            accepted_at: self.accepted_at,
            last_activity: self.last_activity,
        }
    }
}

impl Session {
    pub fn token(&self) -> (r: u64)
        ensures
            r == self@.token,
    {
        self.token
    }

    pub fn username(&self) -> (r: Option<&str>)
        ensures
            match r {
                Some(u) => self@.name == Some(u@),
                None => self@.name is None,
            },
    {
        match &self.username {
            Some(u) => Some(u.as_str()),
            None => None,
        }
    }
}

/// The sessions of `v` as plain values.
pub open spec fn sessions_view(v: Seq<Session>) -> Seq<SessionView> {
    v.map_values(|s: Session| s@)
}

/// An instruction to the caller.
#[derive(Debug, Clone, PartialEq, Eq)]
pub enum Action {
    /// Send `msg` to the connection `to`.
    Send { to: u64, msg: ServerToClientMsg },
    /// Send `farewell`, if any, to the connection `token`, then close it.
    Close { token: u64, farewell: Option<ServerToClientMsg> },
}

impl View for Action {
    type V = ActionView;

    open spec fn view(&self) -> ActionView {
        match self {
            Action::Send { to, msg } => ActionView::Send(*to, msg@),
            Action::Close { token, farewell } => ActionView::Close(
                *token,
                match farewell {
                    Some(m) => Some(m@),
                    None => None,
                },
            ),
        }
    }
}

/// The actions of `v` as plain values.
pub open spec fn actions_view(v: Seq<Action>) -> Seq<ActionView> {
    v.map_values(|a: Action| a@)
}

/// The state of a chat server: its limits, its sessions and its registry.
pub struct Server {
    config: Config,
    sessions: Vec<Session>,
    registry: Registry,
}

impl View for Server {
    type V = State;

    closed spec fn view(&self) -> State {
        State { sessions: sessions_view(self.sessions@), registry: self.registry@ }
    }
}

/// A string holding the characters of `text`.
fn owned(text: &str) -> (r: String)
    ensures
        r@ == text@,
{
    text.to_owned()
}

fn error_msg(text: &str) -> (r: ServerToClientMsg)
    ensures
        r@ == ServerMsg::Error(text@),
{
    ServerToClientMsg::Error(owned(text))
}

impl Server {
    pub closed spec fn cfg(&self) -> Config {
        self.config
    }

    pub open spec fn wf(&self) -> bool {
        state_wf(self@)
    }

    pub fn new(config: Config) -> (r: Server)
        ensures
            r.wf(),
            r.cfg() == config,
            r@.sessions.len() == 0,
            r@.registry.len() == 0,
    {
        let r = Server { config, sessions: Vec::new(), registry: Registry::new(config.max_clients) };
        assert(r@.sessions =~= Seq::<SessionView>::empty());
        r
    }

    pub fn config(&self) -> (r: Config)
        ensures
            r == self.cfg(),
    {
        self.config
    }

    /// The number of open connections.
    pub fn len(&self) -> (r: usize)
        ensures
            r == self@.sessions.len(),
    {
        self.sessions.len()
    }

    /// The registry of usernames.
    pub fn registry(&self) -> (r: &Registry)
        ensures
            r@ == self@.registry,
    {
        &self.registry
    }

    fn find_token(&self, token: u64) -> (r: Option<usize>)
        requires
            self.wf(),
        ensures
            r is Some <==> has_token(self@.sessions, token),
            r matches Some(i) ==> i == token_index(self@.sessions, token) && i
                < self@.sessions.len(),
    {
        let mut i: usize = 0;
        while i < self.sessions.len()
            invariant
                self.wf(),
                i <= self@.sessions.len(),
                self@.sessions.len() == self.sessions@.len(),
                forall|j: int| 0 <= j < i ==> #[trigger] self@.sessions[j].token != token,
            decreases self.sessions@.len() - i,
        {
            if self.sessions[i].token == token {
                proof {
                    assert(self@.sessions[i as int] == self.sessions@[i as int]@);
                    lemma_token_index(self@.sessions, i as int);
                }
                return Some(i);
            }
            i = i + 1;
        }
        None
    }

    /// Whether a connection with the token `token` is open.
    pub fn is_live(&self, token: u64) -> (r: bool)
        requires
            self.wf(),
        ensures
            r == has_token(self@.sessions, token),
    {
        self.find_token(token).is_some()
    }

    fn drop_at(&mut self, i: usize)
        requires
            old(self).wf(),
            i < old(self)@.sessions.len(),
        ensures
            final(self)@ == drop_session(old(self)@, i as int),
            final(self).wf(),
            final(self).cfg() == old(self).cfg(),
    {
        proof {
            lemma_drop_session_wf(self@, i as int);
        }
        let ghost pre = self@;
        let s = self.sessions.remove(i);
        assert(self@.sessions =~= pre.sessions.remove(i as int));
        match s.username {
            Some(u) => {
                self.registry.remove(u.as_str());
            },
            None => {},
        }
    }
}

fn one(a: Action) -> (r: Vec<Action>)
    ensures
        actions_view(r@) == seq![a@],
{
    let r = vec![a];
    assert(actions_view(r@) =~= seq![a@]);
    r
}

fn no_actions() -> (r: Vec<Action>)
    ensures
        actions_view(r@) == Seq::<ActionView>::empty(),
{
    let r: Vec<Action> = Vec::new();
    assert(actions_view(r@) =~= Seq::<ActionView>::empty());
    r
}

fn close_with_error(token: u64, text: &str) -> (r: Vec<Action>)
    ensures
        actions_view(r@) == reject(token, text@),
{
    one(Action::Close { token, farewell: Some(error_msg(text)) })
}

impl Server {
    /// Applies a message from the connection `token`, received at `now`.
    pub fn on_message(&mut self, token: u64, msg: ClientToServerMsg, now: u64) -> (r: Vec<Action>)
        requires
            old(self).wf(),
        ensures
            final(self).wf(),
            final(self).cfg() == old(self).cfg(),
            (final(self)@, actions_view(r@)) == message_spec(
                old(self).cfg(),
                old(self)@,
                token,
                msg@,
                now,
            ),
    {
        let i = match self.find_token(token) {
            Some(i) => i,
            None => {
                return no_actions();
            },
        };
        let ghost pre = self@;
        let ghost s = pre.sessions[i as int];
        assert(s == self.sessions@[i as int]@);
        let current: Option<String> = match &self.sessions[i].username {
            Some(u) => Some(u.clone()),
            None => None,
        };
        match current {
            None => match msg {
                ClientToServerMsg::Join { name } => {
                    let accepted = self.sessions[i].accepted_at;
                    if now > accepted && now - accepted > self.config.join_timeout_ms {
                        self.drop_at(i);
                        return close_with_error(token, "Timed out waiting for Join");
                    }
                    if name.as_str().as_bytes().len() > MAX_NAME_BYTES {
                        self.drop_at(i);
                        return close_with_error(token, "Username too long");
                    }
                    let ghost n = name@;
                    if !self.registry.try_add(name.clone(), token) {
                        self.drop_at(i);
                        return close_with_error(token, "Username already taken");
                    }
                    proof {
                        lemma_join_wf(pre, i as int, n, now);
                    }
                    self.sessions[i].username = Some(name);
                    self.sessions[i].last_activity = now;
                    assert(self@.sessions =~= pre.sessions.update(
                        i as int,
                        SessionView {
                            token,
                            name: Some(n),
                            accepted_at: s.accepted_at,
                            last_activity: now,
                        },
                    ));
                    one(Action::Send { to: token, msg: ServerToClientMsg::Welcome })
                },
                _ => {
                    self.drop_at(i);
                    close_with_error(token, "Unexpected message received")
                },
            },
            Some(u) => {
                if let ClientToServerMsg::Join { .. } = msg {
                    self.drop_at(i);
                    return close_with_error(token, "Unexpected message received");
                }
                proof {
                    lemma_touch_wf(pre, i as int, now);
                }
                self.sessions[i].last_activity = now;
                assert(self@.sessions =~= pre.sessions.update(
                    i as int,
                    SessionView {
                        token,
                        name: s.name,
                        accepted_at: s.accepted_at,
                        last_activity: now,
                    },
                ));
                match msg {
                    ClientToServerMsg::Ping => one(Action::Send { to: token, msg: ServerToClientMsg::Pong }),
                    ClientToServerMsg::ListUsers => {
                        let users = self.registry.get_usernames_list();
                        one(Action::Send { to: token, msg: ServerToClientMsg::UserList { users } })
                    },
                    ClientToServerMsg::SendDM { to, message } => {
                        if str_eq(to.as_str(), u.as_str()) {
                            one(Action::Send { to: token, msg: error_msg("Cannot send a DM to yourself") })
                        } else {
                            match self.registry.get(to.as_str()) {
                                Some(target) => one(
                                    Action::Send {
                                        to: target,
                                        msg: ServerToClientMsg::Message { from: u, message },
                                    },
                                ),
                                None => one(Action::Send { to: token, msg: error_msg("User does not exist") }),
                            }
                        }
                    },
                    ClientToServerMsg::Broadcast { message } => {
                        let targets = self.registry.broadcast_targets(u.as_str());
                        let ghost tv = entries_view(targets@);
                        let mut acts: Vec<Action> = Vec::new();
                        let mut k: usize = 0;
                        while k < targets.len()
                            invariant
                                k <= targets@.len(),
                                acts@.len() == k,
                                tv == entries_view(targets@),
                                actions_view(acts@) == broadcast_sends(tv.take(k as int), u@, message@),
                            decreases targets@.len() - k,
                        {
                            let ghost before = acts@;
                            acts.push(
                                Action::Send {
                                    to: targets[k].1,
                                    msg: ServerToClientMsg::Message { from: u.clone(), message: message.clone() },
                                },
                            );
                            let ghost sent = ActionView::Send(tv[k as int].1, ServerMsg::Message(u@, message@));
                            assert(acts@[k as int]@ == sent);
                            assert(actions_view(acts@) =~= actions_view(before).push(sent));
                            assert(broadcast_sends(tv.take(k + 1), u@, message@) =~= broadcast_sends(
                                tv.take(k as int),
                                u@,
                                message@,
                            ).push(sent));
                            k = k + 1;
                        }
                        assert(tv.take(k as int) =~= tv);
                        acts
                    },
                    ClientToServerMsg::Join { .. } => no_actions(),
                }
            },
        }
    }
}

/// Adding a session with a fresh token that has not joined keeps the state
/// well formed.
pub proof fn lemma_accept_wf(st: State, s: SessionView)
    requires
        state_wf(st),
        !has_token(st.sessions, s.token),
        s.name is None,
    ensures
        state_wf(State { sessions: st.sessions.push(s), registry: st.registry }),
{
    let ss = st.sessions.push(s);
    assert forall|a: int, b: int|
        0 <= a < ss.len() && 0 <= b < ss.len() && a != b implies #[trigger] ss[a].token
        != #[trigger] ss[b].token by {
        if a == ss.len() - 1 {
            assert(st.sessions[b].token != s.token);
        } else if b == ss.len() - 1 {
            assert(st.sessions[a].token != s.token);
        }
    }
    assert forall|a: int| 0 <= a < ss.len() && (#[trigger] ss[a]).name is Some implies st.registry.contains(
        (ss[a].name->0, ss[a].token),
    ) by {
        assert(ss[a] == st.sessions[a]);
    }
    assert forall|j: int| 0 <= j < st.registry.len() implies has_named_session(
        ss,
        (#[trigger] st.registry[j]).0,
        st.registry[j].1,
    ) by {
        assert(has_named_session(st.sessions, st.registry[j].0, st.registry[j].1));
        let a = choose|a: int|
            0 <= a < st.sessions.len() && #[trigger] st.sessions[a].token == st.registry[j].1
                && st.sessions[a].name == Some(st.registry[j].0);
        assert(ss[a] == st.sessions[a]);
    }
}

/// The time at which `s` falls due, in milliseconds, or `u64::MAX` where that
/// lies beyond it.
pub open spec fn deadline(cfg: Config, s: SessionView) -> u64 {
    let t = match s.name {
        None => s.accepted_at as int + cfg.join_timeout_ms as int + 1,
        Some(_) => s.last_activity as int + cfg.idle_timeout_ms as int + 1,
    };
    if t > u64::MAX {
        u64::MAX
    } else {
        t as u64
    }
}

impl Server {
    /// Takes in the connection `token`, accepted at `now`; refuses it when
    /// the server is full.
    pub fn accept(&mut self, token: u64, now: u64) -> (r: Vec<Action>)
        requires
            old(self).wf(),
            !has_token(old(self)@.sessions, token),
        ensures
            final(self).wf(),
            final(self).cfg() == old(self).cfg(),
            (final(self)@, actions_view(r@)) == accept_spec(old(self).cfg(), old(self)@, token, now),
    {
        if self.sessions.len() >= self.config.max_clients {
            return close_with_error(token, "Server is full");
        }
        let ghost pre = self@;
        let s = Session { token, username: None, accepted_at: now, last_activity: now };
        proof {
            lemma_accept_wf(pre, s@);
        }
        self.sessions.push(s);
        assert(self@.sessions =~= pre.sessions.push(s@));
        no_actions()
    }

    /// Forgets the connection `token` after it ended: end of stream, an I/O
    /// error, or a frame that held no message.
    pub fn on_closed(&mut self, token: u64) -> (r: Vec<Action>)
        requires
            old(self).wf(),
        ensures
            final(self).wf(),
            final(self).cfg() == old(self).cfg(),
            (final(self)@, actions_view(r@)) == closed_spec(old(self)@, token),
    {
        match self.find_token(token) {
            Some(i) => {
                self.drop_at(i);
                one(Action::Close { token, farewell: None })
            },
            None => no_actions(),
        }
    }

    /// Disconnects the session `token` if it is due at `now`.
    pub fn time_out(&mut self, token: u64, now: u64) -> (r: Vec<Action>)
        requires
            old(self).wf(),
        ensures
            final(self).wf(),
            final(self).cfg() == old(self).cfg(),
            (final(self)@, actions_view(r@)) == time_out_spec(
                old(self).cfg(),
                old(self)@,
                token,
                now,
            ),
    {
        let i = match self.find_token(token) {
            Some(i) => i,
            None => {
                return no_actions();
            },
        };
        assert(self@.sessions[i as int] == self.sessions@[i as int]@);
        if !self.is_due(i, now) {
            return no_actions();
        }
        if self.sessions[i].username.is_none() {
            self.drop_at(i);
            close_with_error(token, "Timed out waiting for Join")
        } else {
            self.drop_at(i);
            close_with_error(token, "Timed out due to inactivity")
        }
    }

    fn is_due(&self, i: usize, now: u64) -> (r: bool)
        requires
            i < self@.sessions.len(),
        ensures
            r == expired(self.cfg(), self@.sessions[i as int], now),
    {
        let s = &self.sessions[i];
        assert(self@.sessions[i as int] == s@);
        let (base, limit) = if s.username.is_none() {
            (s.accepted_at, self.config.join_timeout_ms)
        } else {
            (s.last_activity, self.config.idle_timeout_ms)
        };
        now > base && now - base > limit
    }

    /// The tokens of the sessions that are due at `now`, in the order in which
    /// they were accepted.
    pub fn expired_tokens(&self, now: u64) -> (r: Vec<u64>)
        ensures
            r@ == expired_tokens(self.cfg(), self@.sessions, now),
    {
        let mut r: Vec<u64> = Vec::new();
        let mut k: usize = 0;
        while k < self.sessions.len()
            invariant
                k <= self@.sessions.len(),
                self@.sessions.len() == self.sessions@.len(),
                r@ == expired_tokens(self.cfg(), self@.sessions.take(k as int), now),
            decreases self.sessions@.len() - k,
        {
            let ghost t = self@.sessions.take(k + 1);
            assert(t.drop_last() =~= self@.sessions.take(k as int));
            assert(t.last() == self.sessions@[k as int]@);
            if self.is_due(k, now) {
                r.push(self.sessions[k].token);
            }
            k = k + 1;
        }
        assert(self@.sessions.take(k as int) =~= self@.sessions);
        r
    }

    /// Disconnects every session that is due at `now`.
    pub fn on_tick(&mut self, now: u64) -> (r: Vec<Action>)
        requires
            old(self).wf(),
        ensures
            final(self).wf(),
            final(self).cfg() == old(self).cfg(),
            (final(self)@, actions_view(r@)) == tick_spec(old(self).cfg(), old(self)@, now),
    {
        let ghost pre = self@;
        let tokens = self.expired_tokens(now);
        let mut acts: Vec<Action> = Vec::new();
        let mut k: usize = 0;
        assert(tokens@.take(0) =~= Seq::<u64>::empty());
        assert(actions_view(acts@) =~= Seq::<ActionView>::empty());
        while k < tokens.len()
            invariant
                k <= tokens@.len(),
                self.wf(),
                self.cfg() == old(self).cfg(),
                (self@, actions_view(acts@)) == time_out_all(
                    self.cfg(),
                    pre,
                    tokens@.take(k as int),
                    now,
                ),
            decreases tokens@.len() - k,
        {
            let ghost before = acts@;
            assert(tokens@.take(k + 1).drop_last() =~= tokens@.take(k as int));
            let mut more = self.time_out(tokens[k], now);
            acts.append(&mut more);
            assert(actions_view(acts@) =~= actions_view(before) + actions_view(
                acts@.skip(before.len() as int),
            ));
            k = k + 1;
        }
        assert(tokens@.take(k as int) =~= tokens@);
        acts
    }

    /// Closes every connection with a notice and forgets them all.
    pub fn shutdown(&mut self) -> (r: Vec<Action>)
        requires
            old(self).wf(),
        ensures
            final(self).wf(),
            final(self).cfg() == old(self).cfg(),
            (final(self)@, actions_view(r@)) == shutdown_spec(old(self)@),
    {
        let ghost pre = self@;
        let mut acts: Vec<Action> = Vec::new();
        let mut k: usize = 0;
        while k < self.sessions.len()
            invariant
                k <= self@.sessions.len(),
                self@ == pre,
                acts@.len() == k,
                self@.sessions.len() == self.sessions@.len(),
                actions_view(acts@) == shutdown_spec(pre).1.take(k as int),
            decreases self.sessions@.len() - k,
        {
            assert(self@.sessions[k as int] == self.sessions@[k as int]@);
            acts.push(
                Action::Close {
                    token: self.sessions[k].token,
                    farewell: Some(error_msg("Server is shutting down")),
                },
            );
            k = k + 1;
            assert(actions_view(acts@) =~= shutdown_spec(pre).1.take(k as int));
        }
        assert(shutdown_spec(pre).1.take(k as int) =~= shutdown_spec(pre).1);
        self.sessions.clear();
        self.registry.clear();
        assert(self@.sessions =~= Seq::<SessionView>::empty());
        acts
    }

    /// The earliest time at which some session falls due, if any session is
    /// open.
    pub fn next_deadline(&self) -> (r: Option<u64>)
        ensures
            r is None <==> self@.sessions.len() == 0,
            r matches Some(d) ==> (exists|i: int|
                0 <= i < self@.sessions.len() && deadline(self.cfg(), #[trigger] self@.sessions[i])
                    == d) && (forall|i: int|
                0 <= i < self@.sessions.len() ==> d <= deadline(
                    self.cfg(),
                    #[trigger] self@.sessions[i],
                )),
    {
        let mut best: Option<u64> = None;
        let mut k: usize = 0;
        while k < self.sessions.len()
            invariant
                k <= self@.sessions.len(),
                self@.sessions.len() == self.sessions@.len(),
                best is None <==> k == 0,
                best matches Some(d) ==> (exists|i: int|
                    0 <= i < k && deadline(self.cfg(), #[trigger] self@.sessions[i]) == d) && (
                forall|i: int| 0 <= i < k ==> d <= deadline(self.cfg(), #[trigger] self@.sessions[i])),
            decreases self.sessions@.len() - k,
        {
            let s = &self.sessions[k];
            assert(self@.sessions[k as int] == s@);
            let (base, limit) = if s.username.is_none() {
                (s.accepted_at, self.config.join_timeout_ms)
            } else {
                (s.last_activity, self.config.idle_timeout_ms)
            };
            let due = base.saturating_add(limit).saturating_add(1);
            assert(due == deadline(self.cfg(), self@.sessions[k as int]));
            best = match best {
                Some(d) => if due < d {
                    Some(due)
                } else {
                    Some(d)
                },
                None => Some(due),
            };
            k = k + 1;
        }
        best
    }
}

impl Server {
    /// The session of the connection `token`, if it is open.
    pub fn session(&self, token: u64) -> (r: Option<&Session>)
        requires
            self.wf(),
        ensures
            r is Some <==> has_token(self@.sessions, token),
            r matches Some(s) ==> s@ == self@.sessions[token_index(self@.sessions, token)],
    {
        match self.find_token(token) {
            Some(i) => {
                assert(self@.sessions[i as int] == self.sessions@[i as int]@);
                Some(&self.sessions[i])
            },
            None => None,
        }
    }
}

/// Decoding takes at least one byte off the front of the buffer whenever it
/// finds a whole frame.
pub proof fn lemma_decode_shrinks(b: Seq<u8>)
    ensures
        decode_client(b) matches Parsed::Complete(_, rest) ==> rest.len() < b.len(),
        decode_client(b) matches Parsed::Malformed(rest) ==> rest.len() < b.len(),
{
}

/// The state after the bytes `b` buffered from the connection `token` are
/// consumed at `now`, what must be done, and the bytes left over: each whole
/// message is applied in turn until the buffer ends mid-frame or the
/// connection is closed; a frame that holds no message closes it.
pub open spec fn input_spec(cfg: Config, st: State, token: u64, b: Seq<u8>, now: u64) -> (
    State,
    Seq<ActionView>,
    Seq<u8>,
)
    decreases b.len(),
{
    if !has_token(st.sessions, token) {
        (st, seq![], b)
    } else {
        match decode_client(b) {
            Parsed::Incomplete => (st, seq![], b),
            Parsed::Malformed(rest) => {
                let (s1, a1) = closed_spec(st, token);
                (s1, a1, rest)
            },
            Parsed::Complete(m, rest) => {
                proof {
                    lemma_decode_shrinks(b);
                }
                let (s1, a1) = message_spec(cfg, st, token, m, now);
                let (s2, a2, r2) = input_spec(cfg, s1, token, rest, now);
                (s2, a1 + a2, r2)
            },
        }
    }
}

impl Server {
    /// Consumes the bytes that `decoder` holds from the connection `token`,
    /// received at `now`: each whole message is applied in turn, and a frame
    /// that holds no message closes the connection.
    pub fn on_input(&mut self, token: u64, decoder: &mut FrameDecoder, now: u64) -> (r: Vec<Action>)
        requires
            old(self).wf(),
        ensures
            final(self).wf(),
            final(self).cfg() == old(self).cfg(),
            (final(self)@, actions_view(r@), final(decoder)@) == input_spec(
                old(self).cfg(),
                old(self)@,
                token,
                old(decoder)@,
                now,
            ),
    {
        let ghost goal = input_spec(self.cfg(), self@, token, decoder@, now);
        let mut acts: Vec<Action> = Vec::new();
        assert(actions_view(acts@) =~= Seq::<ActionView>::empty());
        loop
            invariant
                self.wf(),
                self.cfg() == old(self).cfg(),
                goal == input_spec(old(self).cfg(), old(self)@, token, old(decoder)@, now),
                ({
                    let (s, a, rest) = input_spec(self.cfg(), self@, token, decoder@, now);
                    (s, actions_view(acts@) + a, rest) == goal
                }),
            decreases decoder@.len(),
        {
            if !self.is_live(token) {
                assert(actions_view(acts@) + Seq::<ActionView>::empty() =~= actions_view(acts@));
                return acts;
            }
            let ghost before = decoder@;
            let ghost pre_acts = acts@;
            proof {
                lemma_decode_shrinks(before);
            }
            match decoder.next_client_msg() {
                Decoded::Message(m) => {
                    let mut more = self.on_message(token, m, now);
                    let ghost added = more@;
                    acts.append(&mut more);
                    assert(acts@.skip(pre_acts.len() as int) =~= added);
                    assert(actions_view(acts@) =~= actions_view(pre_acts) + actions_view(added));
                },
                Decoded::Incomplete => {
                    assert(actions_view(acts@) + Seq::<ActionView>::empty() =~= actions_view(acts@));
                    return acts;
                },
                Decoded::Malformed => {
                    let mut more = self.on_closed(token);
                    let ghost added = more@;
                    acts.append(&mut more);
                    assert(acts@.skip(pre_acts.len() as int) =~= added);
                    assert(actions_view(acts@) =~= actions_view(pre_acts) + actions_view(added));
                    return acts;
                },
            }
        }
    }
}

} // verus!
