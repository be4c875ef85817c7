//! What the protocol guarantees to its clients, stated over the state machine
//! of [`crate::server`] and proved from it.
use vstd::prelude::*;
use vstd::utf8::*;
use crate::message::ClientMsg;
use crate::message::ServerMsg;
use crate::registry::{has_name, name_index, names_of, names_unique, others, lemma_name_index};
use crate::server::{
    ActionView,
    Config,
    MAX_NAME_BYTES,
    State,
    closed_spec,
    dm_self_text,
    drop_session,
    expired,
    expired_tokens,
    has_named_session,
    has_token,
    join_expired,
    join_timeout_text,
    message_spec,
    name_too_long_text,
    name_taken_text,
    reject,
    reply,
    state_wf,
    time_out_all,
    time_out_spec,
    tick_spec,
    token_index,
    lemma_drop_session_wf,
    lemma_join_wf,
    lemma_token_index,
};

verus! {

/// The position of the session with the token `t`, where it is live.
proof fn lemma_live(st: State, t: u64) -> (i: int)
    requires
        state_wf(st),
        has_token(st.sessions, t),
    ensures
        0 <= i < st.sessions.len(),
        st.sessions[i].token == t,
        token_index(st.sessions, t) == i,
{
    let i = choose|i: int| 0 <= i < st.sessions.len() && #[trigger] st.sessions[i].token == t;
    lemma_token_index(st.sessions, i);
    i
}

/// The registry entry of a session that has joined as `name` with the token `t`.
proof fn lemma_registered(st: State, name: Seq<char>, t: u64)
    requires
        state_wf(st),
        has_named_session(st.sessions, name, t),
    ensures
        has_token(st.sessions, t),
        st.sessions[token_index(st.sessions, t)].name == Some(name),
        has_name(st.registry, name),
        st.registry[name_index(st.registry, name)] == (name, t),
{
    let a = choose|a: int|
        0 <= a < st.sessions.len() && #[trigger] st.sessions[a].token == t && st.sessions[a].name
            == Some(name);
    lemma_token_index(st.sessions, a);
    assert(st.sessions[a].name is Some);
    assert(st.registry.contains((name, t)));
    let j = choose|j: int| 0 <= j < st.registry.len() && st.registry[j] == (name, t);
    lemma_name_index(st.registry, j);
}

/// No two registry entries share a token.
proof fn lemma_registry_tokens_unique(st: State, j: int, k: int)
    requires
        state_wf(st),
        0 <= j < st.registry.len(),
        0 <= k < st.registry.len(),
        st.registry[j].1 == st.registry[k].1,
    ensures
        j == k,
{
    assert(has_named_session(st.sessions, st.registry[j].0, st.registry[j].1));
    assert(has_named_session(st.sessions, st.registry[k].0, st.registry[k].1));
    let a = choose|a: int|
        0 <= a < st.sessions.len() && #[trigger] st.sessions[a].token == st.registry[j].1
            && st.sessions[a].name == Some(st.registry[j].0);
    let b = choose|b: int|
        0 <= b < st.sessions.len() && #[trigger] st.sessions[b].token == st.registry[k].1
            && st.sessions[b].name == Some(st.registry[k].0);
    assert(a == b);
}

/// Uniqueness of usernames: in a well-formed state no two sessions have
/// joined under the same username, and the registry holds at most one entry
/// for each username.
pub proof fn lemma_one_session_per_name(st: State, i: int, j: int)
    requires
        state_wf(st),
        0 <= i < st.sessions.len(),
        0 <= j < st.sessions.len(),
        st.sessions[i].name is Some,
        st.sessions[i].name == st.sessions[j].name,
    ensures
        i == j,
        names_unique(st.registry),
{
    let n = st.sessions[i].name->0;
    assert(st.registry.contains((n, st.sessions[i].token)));
    assert(st.registry.contains((n, st.sessions[j].token)));
    let a = choose|a: int| 0 <= a < st.registry.len() && st.registry[a] == (n, st.sessions[i].token);
    let b = choose|b: int| 0 <= b < st.registry.len() && st.registry[b] == (n, st.sessions[j].token);
    assert(a == b);
}

/// Two connections that both try to join under a free username: the first
/// to be processed is welcomed and registered, the second is refused with
/// an error and closed, and the name stays with the first.
pub proof fn lemma_concurrent_join(
    cfg: Config,
    st: State,
    a: u64,
    b: u64,
    name: Seq<char>,
    now: u64,
)
    requires
        state_wf(st),
        a != b,
        has_token(st.sessions, a),
        has_token(st.sessions, b),
        st.sessions[token_index(st.sessions, a)].name is None,
        st.sessions[token_index(st.sessions, b)].name is None,
        !join_expired(cfg, st.sessions[token_index(st.sessions, a)], now),
        !join_expired(cfg, st.sessions[token_index(st.sessions, b)], now),
        encode_utf8(name).len() <= MAX_NAME_BYTES,
        !has_name(st.registry, name),
    ensures
        ({
            let (st1, first) = message_spec(cfg, st, a, ClientMsg::Join(name), now);
            let (st2, second) = message_spec(cfg, st1, b, ClientMsg::Join(name), now);
            &&& first == reply(a, ServerMsg::Welcome)
            &&& second == reject(b, name_taken_text())
            &&& has_name(st2.registry, name)
            &&& st2.registry[name_index(st2.registry, name)] == (name, a)
            &&& !has_token(st2.sessions, b)
        }),
{
    let ia = lemma_live(st, a);
    let ib = lemma_live(st, b);
    let (st1, first) = message_spec(cfg, st, a, ClientMsg::Join(name), now);
    lemma_join_wf(st, ia, name, now);
    assert(state_wf(st1));
    assert(st1.sessions[ib] == st.sessions[ib]);
    lemma_token_index(st1.sessions, ib);
    let last = st1.registry.len() - 1;
    assert(st1.registry[last] == (name, a));
    lemma_name_index(st1.registry, last);
    let (st2, second) = message_spec(cfg, st1, b, ClientMsg::Join(name), now);
    assert(st2 == drop_session(st1, ib));
    assert(st2.registry == st1.registry);
    lemma_drop_session_wf(st1, ib);
    if has_token(st2.sessions, b) {
        let k = lemma_live(st2, b);
        let k2 = if k < ib { k } else { k + 1 };
        assert(st2.sessions[k] == st1.sessions[k2]);
        assert(st1.sessions[ib].token == b);
    }
}

/// `t` is among the tokens due at `now` where its session is.
proof fn lemma_expired_token_listed(cfg: Config, ss: Seq<crate::server::SessionView>, i: int, now: u64)
    requires
        0 <= i < ss.len(),
        expired(cfg, ss[i], now),
    ensures
        expired_tokens(cfg, ss, now).contains(ss[i].token),
    decreases ss.len(),
{
    let init = ss.drop_last();
    if i == ss.len() - 1 {
        let r = expired_tokens(cfg, ss, now);
        assert(r[r.len() - 1] == ss[i].token);
    } else {
        assert(init[i] == ss[i]);
        lemma_expired_token_listed(cfg, init, i, now);
        let r0 = expired_tokens(cfg, init, now);
        let k = choose|k: int| 0 <= k < r0.len() && r0[k] == ss[i].token;
        let r = expired_tokens(cfg, ss, now);
        assert(r[k] == r0[k]);
    }
}

/// Join timeout: a connection that has not joined within the join window is
/// due, is closed with an error when timed out, and a late `Join` from it is
/// refused the same way; the registry is left as it was.
pub proof fn lemma_join_timeout(cfg: Config, st: State, t: u64, name: Seq<char>, now: u64)
    requires
        state_wf(st),
        has_token(st.sessions, t),
        st.sessions[token_index(st.sessions, t)].name is None,
        join_expired(cfg, st.sessions[token_index(st.sessions, t)], now),
    ensures
        expired_tokens(cfg, st.sessions, now).contains(t),
        time_out_spec(cfg, st, t, now).1 == reject(t, join_timeout_text()),
        time_out_spec(cfg, st, t, now).0.registry == st.registry,
        !has_token(time_out_spec(cfg, st, t, now).0.sessions, t),
        message_spec(cfg, st, t, ClientMsg::Join(name), now) == time_out_spec(cfg, st, t, now),
{
    let i = lemma_live(st, t);
    lemma_expired_token_listed(cfg, st.sessions, i, now);
    let d = drop_session(st, i);
    lemma_drop_session_wf(st, i);
    if has_token(d.sessions, t) {
        let k = lemma_live(d, t);
        let k2 = if k < i { k } else { k + 1 };
        assert(d.sessions[k] == st.sessions[k2]);
    }
}

/// Direct messages go to their addressee only: from `alice` to `bob` the one
/// action is the message delivered to `bob`'s connection, and from `alice`
/// to herself the one action is an error back to `alice`.
pub proof fn lemma_dm_routing(
    cfg: Config,
    st: State,
    alice: Seq<char>,
    ta: u64,
    bob: Seq<char>,
    tb: u64,
    m: Seq<char>,
    x: Seq<char>,
    now: u64,
)
    requires
        state_wf(st),
        has_named_session(st.sessions, alice, ta),
        has_named_session(st.sessions, bob, tb),
        alice != bob,
    ensures
        message_spec(cfg, st, ta, ClientMsg::SendDM(bob, m), now).1 == seq![
            ActionView::Send(tb, ServerMsg::Message(alice, m)),
        ],
        message_spec(cfg, st, ta, ClientMsg::SendDM(alice, x), now).1 == seq![
            ActionView::Send(ta, ServerMsg::Error(dm_self_text())),
        ],
{
    lemma_registered(st, alice, ta);
    lemma_registered(st, bob, tb);
}

/// The entries of `others(reg, n)` are those of `reg` whose username is not
/// `n`, with unique usernames where `reg` has them.
proof fn lemma_others(reg: Seq<(Seq<char>, u64)>, n: Seq<char>)
    ensures
        forall|e: (Seq<char>, u64)| #[trigger] others(reg, n).contains(e) <==> (reg.contains(e)
            && e.0 != n),
        names_unique(reg) ==> names_unique(others(reg, n)),
    decreases reg.len(),
{
    if reg.len() > 0 {
        let init = reg.drop_last();
        lemma_others(init, n);
        let o = others(reg, n);
        let oi = others(init, n);
        assert forall|e: (Seq<char>, u64)| #[trigger] o.contains(e) <==> (reg.contains(e) && e.0
            != n) by {
            if reg.contains(e) && e.0 != n {
                let j = choose|j: int| 0 <= j < reg.len() && reg[j] == e;
                if j < reg.len() - 1 {
                    assert(init[j] == e);
                    assert(oi.contains(e));
                    let k = choose|k: int| 0 <= k < oi.len() && oi[k] == e;
                    assert(o[k] == e);
                } else {
                    assert(o[o.len() - 1] == e);
                }
            }
            if o.contains(e) {
                let k = choose|k: int| 0 <= k < o.len() && o[k] == e;
                if k < oi.len() {
                    assert(oi[k] == e);
                    assert(oi.contains(e));
                    let j = choose|j: int| 0 <= j < init.len() && init[j] == e;
                    assert(reg[j] == e);
                } else {
                    assert(reg[reg.len() - 1] == e);
                }
            }
        }
        if names_unique(reg) {
            assert(names_unique(init)) by {
                assert forall|a: int, b: int|
                    0 <= a < init.len() && 0 <= b < init.len() && a != b implies #[trigger] init[a].0
                    != #[trigger] init[b].0 by {
                    assert(init[a] == reg[a] && init[b] == reg[b]);
                }
            }
            assert forall|a: int, b: int|
                0 <= a < o.len() && 0 <= b < o.len() && a != b implies #[trigger] o[a].0
                != #[trigger] o[b].0 by {
                if a < oi.len() && b < oi.len() {
                    assert(o[a] == oi[a] && o[b] == oi[b]);
                } else {
                    let (p, q) = if a < oi.len() { (a, b) } else { (b, a) };
                    if p < oi.len() {
                        assert(oi.contains(o[p]));
                        let j = choose|j: int| 0 <= j < init.len() && init[j] == o[p];
                        assert(reg[j] == init[j]);
                        assert(o[q] == reg[reg.len() - 1]);
                    }
                }
            }
        }
    }
}

/// Broadcasts reach every other client exactly once and never the sender:
/// each action sends the sender's message to a connection other than the
/// sender's, and each other registered client is the target of exactly one.
pub proof fn lemma_broadcast_exclusion(
    cfg: Config,
    st: State,
    sender: Seq<char>,
    ts: u64,
    m: Seq<char>,
    now: u64,
)
    requires
        state_wf(st),
        has_named_session(st.sessions, sender, ts),
    ensures
        ({
            let acts = message_spec(cfg, st, ts, ClientMsg::Broadcast(m), now).1;
            &&& forall|k: int|
                0 <= k < acts.len() ==> (#[trigger] acts[k]) is Send && acts[k]->Send_0 != ts
                    && acts[k]->Send_1 == ServerMsg::Message(sender, m)
            &&& forall|j: int|
                0 <= j < st.registry.len() && (#[trigger] st.registry[j]).0 != sender ==> exists|
                    k: int,
                |
                    0 <= k < acts.len() && acts[k] == ActionView::Send(
                        st.registry[j].1,
                        ServerMsg::Message(sender, m),
                    ) && forall|k2: int|
                        0 <= k2 < acts.len() && #[trigger] acts[k2] == ActionView::Send(
                            st.registry[j].1,
                            ServerMsg::Message(sender, m),
                        ) ==> k2 == k
        }),
{
    lemma_registered(st, sender, ts);
    lemma_others(st.registry, sender);
    let reg = st.registry;
    let o = others(reg, sender);
    let acts = message_spec(cfg, st, ts, ClientMsg::Broadcast(m), now).1;
    assert(acts.len() == o.len());
    let si = name_index(reg, sender);
    assert forall|k: int| 0 <= k < acts.len() implies (#[trigger] acts[k]) is Send && acts[k]->Send_0
        != ts && acts[k]->Send_1 == ServerMsg::Message(sender, m) by {
        assert(acts[k] == ActionView::Send(o[k].1, ServerMsg::Message(sender, m)));
        assert(o.contains(o[k]));
        let j = choose|j: int| 0 <= j < reg.len() && reg[j] == o[k];
        if o[k].1 == ts {
            lemma_registry_tokens_unique(st, j, si);
        }
    }
    assert forall|j: int| 0 <= j < reg.len() && (#[trigger] reg[j]).0 != sender implies exists|
        k: int,
    |
        0 <= k < acts.len() && acts[k] == ActionView::Send(reg[j].1, ServerMsg::Message(sender, m))
            && forall|k2: int|
            0 <= k2 < acts.len() && #[trigger] acts[k2] == ActionView::Send(
                reg[j].1,
                ServerMsg::Message(sender, m),
            ) ==> k2 == k by {
        assert(reg.contains(reg[j]));
        assert(o.contains(reg[j]));
        let k = choose|k: int| 0 <= k < o.len() && o[k] == reg[j];
        assert(acts[k] == ActionView::Send(o[k].1, ServerMsg::Message(sender, m)));
        assert forall|k2: int|
            0 <= k2 < acts.len() && #[trigger] acts[k2] == ActionView::Send(
                reg[j].1,
                ServerMsg::Message(sender, m),
            ) implies k2 == k by {
            assert(acts[k2] == ActionView::Send(o[k2].1, ServerMsg::Message(sender, m)));
            assert(o.contains(o[k2]));
            let j2 = choose|j2: int| 0 <= j2 < reg.len() && reg[j2] == o[k2];
            lemma_registry_tokens_unique(st, j, j2);
        }
    }
}

/// Cleanup on disconnect: once the connection of a client that joined as `u`
/// has ended, `u` is no longer listed, and a `Join` under `u` from a waiting
/// connection is welcomed.
pub proof fn lemma_cleanup_on_disconnect(
    cfg: Config,
    st: State,
    u: Seq<char>,
    t: u64,
    newcomer: u64,
    now: u64,
)
    requires
        state_wf(st),
        has_named_session(st.sessions, u, t),
        has_token(st.sessions, newcomer),
        st.sessions[token_index(st.sessions, newcomer)].name is None,
        !join_expired(cfg, st.sessions[token_index(st.sessions, newcomer)], now),
    ensures
        ({
            let st1 = closed_spec(st, t).0;
            &&& state_wf(st1)
            &&& !has_name(st1.registry, u)
            &&& !names_of(st1.registry).contains(u)
            &&& message_spec(cfg, st1, newcomer, ClientMsg::Join(u), now).1 == reply(
                newcomer,
                ServerMsg::Welcome,
            )
        }),
{
    lemma_registered(st, u, t);
    let i = token_index(st.sessions, t);
    let reg = st.registry;
    let k = name_index(reg, u);
    assert(encode_utf8(reg[k].0).len() <= MAX_NAME_BYTES);
    let st1 = closed_spec(st, t).0;
    assert(st1 == drop_session(st, i));
    lemma_drop_session_wf(st, i);
    if has_name(st1.registry, u) {
        let j = choose|j: int| 0 <= j < st1.registry.len() && #[trigger] st1.registry[j].0 == u;
        let j2 = if j < k { j } else { j + 1 };
        assert(st1.registry[j] == reg[j2]);
    }
    if names_of(st1.registry).contains(u) {
        let j = choose|j: int| 0 <= j < names_of(st1.registry).len() && names_of(st1.registry)[j] == u;
        assert(st1.registry[j].0 == u);
    }
    let ni = lemma_live(st, newcomer);
    assert(ni != i);
    let ni2 = if ni < i { ni } else { ni - 1 };
    assert(st1.sessions[ni2] == st.sessions[ni]);
    lemma_token_index(st1.sessions, ni2);
}

/// Name length limit: a `Join` whose username is longer than the limit is
/// refused with an error, the connection is closed, and nothing is
/// registered.
pub proof fn lemma_name_too_long(cfg: Config, st: State, t: u64, name: Seq<char>, now: u64)
    requires
        state_wf(st),
        has_token(st.sessions, t),
        st.sessions[token_index(st.sessions, t)].name is None,
        !join_expired(cfg, st.sessions[token_index(st.sessions, t)], now),
        encode_utf8(name).len() > MAX_NAME_BYTES,
    ensures
        message_spec(cfg, st, t, ClientMsg::Join(name), now).1 == reject(t, name_too_long_text()),
        message_spec(cfg, st, t, ClientMsg::Join(name), now).0.registry == st.registry,
        !has_token(message_spec(cfg, st, t, ClientMsg::Join(name), now).0.sessions, t),
{
    let i = lemma_live(st, t);
    let d = drop_session(st, i);
    if has_token(d.sessions, t) {
        lemma_drop_session_wf(st, i);
        let k = lemma_live(d, t);
        let k2 = if k < i { k } else { k + 1 };
        assert(d.sessions[k] == st.sessions[k2]);
    }
}

/// Dropping another session leaves the session `t` in place, unchanged.
proof fn lemma_drop_keeps(st: State, i: int, t: u64)
    requires
        state_wf(st),
        0 <= i < st.sessions.len(),
        st.sessions[i].token != t,
        has_token(st.sessions, t),
    ensures
        has_token(drop_session(st, i).sessions, t),
        drop_session(st, i).sessions[token_index(drop_session(st, i).sessions, t)]
            == st.sessions[token_index(st.sessions, t)],
{
    let k = lemma_live(st, t);
    let d = drop_session(st, i);
    lemma_drop_session_wf(st, i);
    let k2 = if k < i { k } else { k - 1 };
    assert(d.sessions[k2] == st.sessions[k]);
    lemma_token_index(d.sessions, k2);
}

/// Dropping a session never brings back the session `t`.
proof fn lemma_drop_absent(st: State, i: int, t: u64)
    requires
        0 <= i < st.sessions.len(),
        !has_token(st.sessions, t),
    ensures
        !has_token(drop_session(st, i).sessions, t),
{
    let d = drop_session(st, i);
    if has_token(d.sessions, t) {
        let k = choose|k: int| 0 <= k < d.sessions.len() && #[trigger] d.sessions[k].token == t;
        let k2 = if k < i { k } else { k + 1 };
        assert(d.sessions[k] == st.sessions[k2]);
    }
}

/// Dropping a session closes its token for good.
proof fn lemma_drop_removes(st: State, i: int)
    requires
        state_wf(st),
        0 <= i < st.sessions.len(),
    ensures
        !has_token(drop_session(st, i).sessions, st.sessions[i].token),
{
    let d = drop_session(st, i);
    let t = st.sessions[i].token;
    if has_token(d.sessions, t) {
        let k = choose|k: int| 0 <= k < d.sessions.len() && #[trigger] d.sessions[k].token == t;
        let k2 = if k < i { k } else { k + 1 };
        assert(d.sessions[k] == st.sessions[k2]);
    }
}

/// The session `t` is open, unchanged from `st`, in `st2`.
pub open spec fn kept(st: State, st2: State, t: u64) -> bool {
    has_token(st2.sessions, t) && st2.sessions[token_index(st2.sessions, t)]
        == st.sessions[token_index(st.sessions, t)]
}

/// What holds after the first `p` of `tokens` have been timed out: the
/// session `t` is still there as it was, or it is gone and was closed with
/// the join-timeout notice; and once `tokens[k] == t` is past, the latter.
proof fn lemma_time_out_prefix(
    cfg: Config,
    st: State,
    tokens: Seq<u64>,
    t: u64,
    k: int,
    p: int,
    now: u64,
)
    requires
        state_wf(st),
        has_token(st.sessions, t),
        st.sessions[token_index(st.sessions, t)].name is None,
        join_expired(cfg, st.sessions[token_index(st.sessions, t)], now),
        0 <= k < tokens.len(),
        tokens[k] == t,
        0 <= p <= tokens.len(),
    ensures
        ({
            let close = ActionView::Close(t, Some(ServerMsg::Error(join_timeout_text())));
            let (sp, ap) = time_out_all(cfg, st, tokens.take(p), now);
            &&& state_wf(sp)
            &&& kept(st, sp, t) || (!has_token(sp.sessions, t) && ap.contains(close))
            &&& p > k ==> !has_token(sp.sessions, t) && ap.contains(close)
        }),
    decreases p,
{
    let close = ActionView::Close(t, Some(ServerMsg::Error(join_timeout_text())));
    if p == 0 {
        assert(tokens.take(0) =~= seq![]);
        lemma_token_index(st.sessions, token_index(st.sessions, t));
    } else {
        let q = p - 1;
        lemma_time_out_prefix(cfg, st, tokens, t, k, q, now);
        let (sp, ap) = time_out_all(cfg, st, tokens.take(q), now);
        let u = tokens[q];
        assert(tokens.take(p).drop_last() =~= tokens.take(q));
        let (s2, a2) = time_out_spec(cfg, sp, u, now);
        assert(time_out_all(cfg, st, tokens.take(p), now) == (s2, ap + a2));
        if has_token(sp.sessions, u) && expired(cfg, sp.sessions[token_index(sp.sessions, u)], now) {
            let i = lemma_live(sp, u);
            lemma_drop_session_wf(sp, i);
            if u == t {
                assert((ap + a2)[ap.len() as int] == close);
                lemma_drop_removes(sp, i);
            } else if kept(st, sp, t) {
                lemma_drop_keeps(sp, i, t);
            } else {
                lemma_drop_absent(sp, i, t);
            }
        }
        if ap.contains(close) {
            let j = choose|j: int| 0 <= j < ap.len() && ap[j] == close;
            assert((ap + a2)[j] == close);
        }
    }
}

/// Join timeout, over a whole tick: a connection that has not joined within
/// the join window is closed with an error by the next tick, and the registry
/// holds no entry for it afterwards.
pub proof fn lemma_tick_join_timeout(cfg: Config, st: State, t: u64, now: u64)
    requires
        state_wf(st),
        has_token(st.sessions, t),
        st.sessions[token_index(st.sessions, t)].name is None,
        join_expired(cfg, st.sessions[token_index(st.sessions, t)], now),
    ensures
        ({
            let (st2, acts) = tick_spec(cfg, st, now);
            &&& !has_token(st2.sessions, t)
            &&& acts.contains(ActionView::Close(t, Some(ServerMsg::Error(join_timeout_text()))))
            &&& forall|j: int| 0 <= j < st2.registry.len() ==> (#[trigger] st2.registry[j]).1 != t
        }),
{
    let i = lemma_live(st, t);
    lemma_expired_token_listed(cfg, st.sessions, i, now);
    let tokens = expired_tokens(cfg, st.sessions, now);
    let k = choose|k: int| 0 <= k < tokens.len() && tokens[k] == t;
    lemma_time_out_prefix(cfg, st, tokens, t, k, tokens.len() as int, now);
    assert(tokens.take(tokens.len() as int) =~= tokens);
    let st2 = tick_spec(cfg, st, now).0;
    assert forall|j: int| 0 <= j < st2.registry.len() implies (#[trigger] st2.registry[j]).1 != t by {
        assert(has_named_session(st2.sessions, st2.registry[j].0, st2.registry[j].1));
        if st2.registry[j].1 == t {
            let a = choose|a: int|
                0 <= a < st2.sessions.len() && #[trigger] st2.sessions[a].token == st2.registry[j].1
                    && st2.sessions[a].name == Some(st2.registry[j].0);
            assert(has_token(st2.sessions, t));
        }
    }
}

} // verus!
