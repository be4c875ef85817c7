//! Framing of protocol messages on a byte stream.
//!
//! A frame is a four-byte big-endian body length followed by the body. A body
//! is a one-byte variant tag followed by the variant's fields; a string field is
//! its UTF-8 byte length (four bytes, big-endian) followed by those bytes, and a
//! list of strings is its element count followed by the elements.
use vstd::prelude::*;
use vstd::utf8::*;
use crate::message::{ClientMsg, ClientToServerMsg, ServerMsg, ServerToClientMsg, strings_view};

verus! {

broadcast use {encode_utf8_valid_utf8, encode_utf8_decode_utf8};

/// The four big-endian bytes of `n`.
pub open spec fn be_bytes(n: u32) -> Seq<u8> {
    seq![(n >> 24u32) as u8, (n >> 16u32) as u8, (n >> 8u32) as u8, n as u8]
}

/// The number whose big-endian bytes are the first four of `b`.
pub open spec fn be_value(b: Seq<u8>) -> u32
    recommends
        b.len() >= 4,
{
    ((b[0] as u32) << 24u32) | ((b[1] as u32) << 16u32) | ((b[2] as u32) << 8u32) | (b[3] as u32)
}

/// Four big-endian bytes read back as the number they were made from.
pub proof fn lemma_be_round_trip(n: u32)
    ensures
        be_value(be_bytes(n)) == n,
        be_bytes(n).len() == 4,
{
    assert(((((n >> 24u32) as u8) as u32) << 24u32) | ((((n >> 16u32) as u8) as u32) << 16u32)
        | ((((n >> 8u32) as u8) as u32) << 8u32) | ((n as u8) as u32) == n) by (bit_vector);
}

/// A string field: its UTF-8 byte length, then its UTF-8 bytes.
pub open spec fn enc_str(s: Seq<char>) -> Seq<u8> {
    be_bytes(encode_utf8(s).len() as u32) + encode_utf8(s)
}

/// The string fields of `ss`, one after the other.
pub open spec fn enc_strs(ss: Seq<Seq<char>>) -> Seq<u8>
    decreases ss.len(),
{
    if ss.len() == 0 {
        seq![]
    } else {
        enc_strs(ss.drop_last()) + enc_str(ss.last())
    }
}

/// A four-byte big-endian number at the front of `b`, and what follows it.
pub open spec fn parse_u32(b: Seq<u8>) -> Option<(u32, Seq<u8>)> {
    if b.len() >= 4 {
        Some((be_value(b), b.skip(4)))
    } else {
        None
    }
}

/// A string field at the front of `b`, and what follows it.
pub open spec fn parse_str(b: Seq<u8>) -> Option<(Seq<char>, Seq<u8>)> {
    match parse_u32(b) {
        Some((n, r)) => if n <= r.len() && valid_utf8(r.take(n as int)) {
            Some((decode_utf8(r.take(n as int)), r.skip(n as int)))
        } else {
            None
        },
        None => None,
    }
}

/// `k` string fields at the front of `b`, and what follows them.
pub open spec fn parse_strs(b: Seq<u8>, k: nat) -> Option<(Seq<Seq<char>>, Seq<u8>)>
    decreases k,
{
    if k == 0 {
        Some((seq![], b))
    } else {
        match parse_strs(b, (k - 1) as nat) {
            Some((xs, r)) => match parse_str(r) {
                Some((x, r2)) => Some((xs.push(x), r2)),
                None => None,
            },
            None => None,
        }
    }
}

/// `b` holds exactly one string field.
pub open spec fn parse_one_str(b: Seq<u8>) -> Option<Seq<char>> {
    match parse_str(b) {
        Some((s, r)) => if r.len() == 0 {
            Some(s)
        } else {
            None
        },
        None => None,
    }
}

/// `b` holds exactly two string fields.
pub open spec fn parse_two_strs(b: Seq<u8>) -> Option<(Seq<char>, Seq<char>)> {
    match parse_str(b) {
        Some((s, r)) => match parse_one_str(r) {
            Some(t) => Some((s, t)),
            None => None,
        },
        None => None,
    }
}

/// The frame around `body`: its length, then the body itself.
pub open spec fn frame(body: Seq<u8>) -> Seq<u8> {
    be_bytes(body.len() as u32) + body
}

/// Where `b` begins with a whole frame: its body and the bytes after it.
pub open spec fn split_frame(b: Seq<u8>) -> Option<(Seq<u8>, Seq<u8>)> {
    match parse_u32(b) {
        Some((n, r)) => if n <= r.len() {
            Some((r.take(n as int), r.skip(n as int)))
        } else {
            None
        },
        None => None,
    }
}

/// A string field parses back to its string, leaving what follows it.
pub proof fn lemma_str_round_trip(s: Seq<char>, rest: Seq<u8>)
    requires
        encode_utf8(s).len() <= u32::MAX,
    ensures
        parse_str(enc_str(s) + rest) == Some((s, rest)),
        enc_str(s).len() == 4 + encode_utf8(s).len(),
{
    let e = encode_utf8(s);
    let b = enc_str(s) + rest;
    lemma_be_round_trip(e.len() as u32);
    assert(b.take(4) =~= be_bytes(e.len() as u32));
    assert(be_value(b) == be_value(be_bytes(e.len() as u32)));
    assert(b.skip(4) =~= e + rest);
    assert(b.skip(4).take(e.len() as int) =~= e);
    assert(b.skip(4).skip(e.len() as int) =~= rest);
}

/// A frame splits back into its body and whatever follows it.
pub proof fn lemma_frame_split(body: Seq<u8>, rest: Seq<u8>)
    requires
        body.len() <= u32::MAX,
    ensures
        split_frame(frame(body) + rest) == Some((body, rest)),
        frame(body).len() == 4 + body.len(),
{
    let b = frame(body) + rest;
    lemma_be_round_trip(body.len() as u32);
    assert(be_value(b) == be_value(be_bytes(body.len() as u32)));
    assert(b.skip(4) =~= body + rest);
    assert(b.skip(4).take(body.len() as int) =~= body);
    assert(b.skip(4).skip(body.len() as int) =~= rest);
}

/// No proper prefix of a frame holds a whole frame.
pub proof fn lemma_frame_prefix_incomplete(body: Seq<u8>, k: int)
    requires
        body.len() <= u32::MAX,
        0 <= k < frame(body).len(),
    ensures
        split_frame(frame(body).take(k)) is None,
{
    let b = frame(body).take(k);
    lemma_be_round_trip(body.len() as u32);
    if k >= 4 {
        assert(be_value(b) == be_value(be_bytes(body.len() as u32)));
    }
}

/// Every string in `ss` has a UTF-8 encoding short enough for its length field.
pub open spec fn strs_fit(ss: Seq<Seq<char>>) -> bool {
    forall|i: int| 0 <= i < ss.len() ==> encode_utf8(#[trigger] ss[i]).len() <= u32::MAX
}

/// String fields one after the other parse back to their strings.
pub proof fn lemma_strs_round_trip(ss: Seq<Seq<char>>, rest: Seq<u8>)
    requires
        strs_fit(ss),
    ensures
        parse_strs(enc_strs(ss) + rest, ss.len()) == Some((ss, rest)),
    decreases ss.len(),
{
    if ss.len() > 0 {
        let init = ss.drop_last();
        let tail = enc_str(ss.last()) + rest;
        assert(strs_fit(init)) by {
            assert forall|i: int| 0 <= i < init.len() implies encode_utf8(#[trigger] init[i]).len()
                <= u32::MAX by {
                assert(init[i] == ss[i]);
            }
        }
        lemma_strs_round_trip(init, tail);
        assert(enc_strs(ss) + rest =~= enc_strs(init) + tail);
        assert(encode_utf8(ss[ss.len() - 1]).len() <= u32::MAX);
        lemma_str_round_trip(ss.last(), rest);
        assert(init.push(ss.last()) =~= ss);
    }
}

/// The string fields of `ss` take at least four bytes each, and a field is
/// never longer than the whole list.
pub proof fn lemma_strs_len(ss: Seq<Seq<char>>)
    ensures
        enc_strs(ss).len() >= 4 * ss.len(),
        forall|i: int|
            0 <= i < ss.len() ==> encode_utf8(#[trigger] ss[i]).len() + 4 <= enc_strs(ss).len(),
    decreases ss.len(),
{
    if ss.len() > 0 {
        let init = ss.drop_last();
        lemma_strs_len(init);
        assert forall|i: int| 0 <= i < ss.len() implies encode_utf8(#[trigger] ss[i]).len() + 4
            <= enc_strs(ss).len() by {
            if i < init.len() {
                assert(init[i] == ss[i]);
            }
        }
    }
}

/// The body that encodes a client message.
pub open spec fn client_body(m: ClientMsg) -> Seq<u8> {
    match m {
        ClientMsg::Join(name) => seq![0u8] + enc_str(name),
        ClientMsg::Ping => seq![1u8],
        ClientMsg::ListUsers => seq![2u8],
        ClientMsg::SendDM(to, message) => seq![3u8] + enc_str(to) + enc_str(message),
        ClientMsg::Broadcast(message) => seq![4u8] + enc_str(message),
    }
}

/// The body that encodes a server message.
pub open spec fn server_body(m: ServerMsg) -> Seq<u8> {
    match m {
        ServerMsg::Welcome => seq![0u8],
        ServerMsg::Pong => seq![1u8],
        ServerMsg::UserList(users) => seq![2u8] + be_bytes(users.len() as u32) + enc_strs(users),
        ServerMsg::Message(from, message) => seq![3u8] + enc_str(from) + enc_str(message),
        ServerMsg::Error(text) => seq![4u8] + enc_str(text),
    }
}

/// The client message that the body `b` holds, if it holds one exactly.
pub open spec fn parse_client_body(b: Seq<u8>) -> Option<ClientMsg> {
    if b.len() == 0 {
        None
    } else {
        let r = b.skip(1);
        if b[0] == 0 {
            match parse_one_str(r) {
                Some(name) => Some(ClientMsg::Join(name)),
                None => None,
            }
        } else if b[0] == 1 && r.len() == 0 {
            Some(ClientMsg::Ping)
        } else if b[0] == 2 && r.len() == 0 {
            Some(ClientMsg::ListUsers)
        } else if b[0] == 3 {
            match parse_two_strs(r) {
                Some((to, message)) => Some(ClientMsg::SendDM(to, message)),
                None => None,
            }
        } else if b[0] == 4 {
            match parse_one_str(r) {
                Some(message) => Some(ClientMsg::Broadcast(message)),
                None => None,
            }
        } else {
            None
        }
    }
}

/// The server message that the body `b` holds, if it holds one exactly.
pub open spec fn parse_server_body(b: Seq<u8>) -> Option<ServerMsg> {
    if b.len() == 0 {
        None
    } else {
        let r = b.skip(1);
        if b[0] == 0 && r.len() == 0 {
            Some(ServerMsg::Welcome)
        } else if b[0] == 1 && r.len() == 0 {
            Some(ServerMsg::Pong)
        } else if b[0] == 2 {
            match parse_u32(r) {
                Some((k, r2)) => match parse_strs(r2, k as nat) {
                    Some((users, r3)) => if r3.len() == 0 {
                        Some(ServerMsg::UserList(users))
                    } else {
                        None
                    },
                    None => None,
                },
                None => None,
            }
        } else if b[0] == 3 {
            match parse_two_strs(r) {
                Some((from, message)) => Some(ServerMsg::Message(from, message)),
                None => None,
            }
        } else if b[0] == 4 {
            match parse_one_str(r) {
                Some(text) => Some(ServerMsg::Error(text)),
                None => None,
            }
        } else {
            None
        }
    }
}

/// What a decoder finds at the front of its buffered bytes.
pub enum Parsed<M> {
    /// The bytes end before the first frame does.
    Incomplete,
    /// The first frame is whole but its body holds no message; the bytes
    /// after that frame.
    Malformed(Seq<u8>),
    /// A message, and the bytes after its frame.
    Complete(M, Seq<u8>),
}

/// What the bytes `b` from a client begin with.
pub open spec fn decode_client(b: Seq<u8>) -> Parsed<ClientMsg> {
    match split_frame(b) {
        Some((body, rest)) => match parse_client_body(body) {
            Some(m) => Parsed::Complete(m, rest),
            None => Parsed::Malformed(rest),
        },
        None => Parsed::Incomplete,
    }
}

/// What the bytes `b` from the server begin with.
pub open spec fn decode_server(b: Seq<u8>) -> Parsed<ServerMsg> {
    match split_frame(b) {
        Some((body, rest)) => match parse_server_body(body) {
            Some(m) => Parsed::Complete(m, rest),
            None => Parsed::Malformed(rest),
        },
        None => Parsed::Incomplete,
    }
}

/// The body of a client message parses back to that message.
pub proof fn lemma_client_body_round_trip(m: ClientMsg)
    requires
        client_body(m).len() <= u32::MAX,
    ensures
        parse_client_body(client_body(m)) == Some(m),
{
    let b = client_body(m);
    let r = b.skip(1);
    match m {
        ClientMsg::Join(name) => {
            assert(r =~= enc_str(name) + seq![]);
            lemma_str_round_trip(name, seq![]);
        },
        ClientMsg::Ping => {},
        ClientMsg::ListUsers => {},
        ClientMsg::SendDM(to, message) => {
            assert(r =~= enc_str(to) + (enc_str(message) + seq![]));
            lemma_str_round_trip(to, enc_str(message) + seq![]);
            lemma_str_round_trip(message, seq![]);
        },
        ClientMsg::Broadcast(message) => {
            assert(r =~= enc_str(message) + seq![]);
            lemma_str_round_trip(message, seq![]);
        },
    }
}

/// The body of a server message parses back to that message.
pub proof fn lemma_server_body_round_trip(m: ServerMsg)
    requires
        server_body(m).len() <= u32::MAX,
    ensures
        parse_server_body(server_body(m)) == Some(m),
{
    let b = server_body(m);
    let r = b.skip(1);
    match m {
        ServerMsg::Welcome => {},
        ServerMsg::Pong => {},
        ServerMsg::UserList(users) => {
            lemma_strs_len(users);
            lemma_be_round_trip(users.len() as u32);
            assert(r =~= be_bytes(users.len() as u32) + (enc_strs(users) + seq![]));
            assert(be_value(r) == be_value(be_bytes(users.len() as u32)));
            assert(r.skip(4) =~= enc_strs(users) + seq![]);
            lemma_strs_round_trip(users, seq![]);
        },
        ServerMsg::Message(from, message) => {
            assert(r =~= enc_str(from) + (enc_str(message) + seq![]));
            lemma_str_round_trip(from, enc_str(message) + seq![]);
            lemma_str_round_trip(message, seq![]);
        },
        ServerMsg::Error(text) => {
            assert(r =~= enc_str(text) + seq![]);
            lemma_str_round_trip(text, seq![]);
        },
    }
}

fn push_be(out: &mut Vec<u8>, n: u32)
    ensures
        final(out)@ == old(out)@ + be_bytes(n),
{
    out.push((n >> 24u32) as u8);
    out.push((n >> 16u32) as u8);
    out.push((n >> 8u32) as u8);
    out.push(n as u8);
    assert(out@ =~= old(out)@ + be_bytes(n));
}

/// Appends the string field of `s`; leaves `out` as it is and returns false
/// where the string is too long for its length field.
fn push_str_field(out: &mut Vec<u8>, s: &String) -> (fits: bool)
    ensures
        fits == (encode_utf8(s@).len() <= u32::MAX),
        fits ==> final(out)@ == old(out)@ + enc_str(s@),
        !fits ==> final(out)@ == old(out)@,
{
    let bytes = s.as_str().as_bytes();
    if bytes.len() > u32::MAX as usize {
        return false;
    }
    push_be(out, bytes.len() as u32);
    let ghost head = out@;
    let mut i: usize = 0;
    while i < bytes.len()
        invariant
            i <= bytes@.len(),
            out@ == head + bytes@.take(i as int),
        decreases bytes@.len() - i,
    {
        out.push(bytes[i]);
        i = i + 1;
        assert(out@ =~= head + bytes@.take(i as int));
    }
    assert(bytes@.take(i as int) =~= bytes@);
    assert(out@ =~= old(out)@ + enc_str(s@));
    true
}

/// The frame around `body`, or `None` where the body is too long for its
/// length field.
fn frame_body(body: Vec<u8>) -> (r: Option<Vec<u8>>)
    ensures
        r is Some <==> body@.len() <= u32::MAX,
        r matches Some(b) ==> b@ == frame(body@),
{
    if body.len() > u32::MAX as usize {
        return None;
    }
    let mut body = body;
    let mut out: Vec<u8> = Vec::new();
    push_be(&mut out, body.len() as u32);
    out.append(&mut body);
    Some(out)
}

/// Encodes a client message as one frame; `None` where it is too long for a
/// frame.
pub fn encode_client_msg(m: &ClientToServerMsg) -> (r: Option<Vec<u8>>)
    ensures
        r is Some <==> client_body(m@).len() <= u32::MAX,
        r matches Some(b) ==> b@ == frame(client_body(m@)),
{
    let mut body: Vec<u8> = Vec::new();
    match m {
        ClientToServerMsg::Join { name } => {
            body.push(0u8);
            if !push_str_field(&mut body, name) {
                return None;
            }
        },
        ClientToServerMsg::Ping => {
            body.push(1u8);
        },
        ClientToServerMsg::ListUsers => {
            body.push(2u8);
        },
        ClientToServerMsg::SendDM { to, message } => {
            body.push(3u8);
            if !push_str_field(&mut body, to) {
                return None;
            }
            if !push_str_field(&mut body, message) {
                return None;
            }
        },
        ClientToServerMsg::Broadcast { message } => {
            body.push(4u8);
            if !push_str_field(&mut body, message) {
                return None;
            }
        },
    }
    assert(body@ =~= client_body(m@));
    frame_body(body)
}

/// Encodes a server message as one frame; `None` where it is too long for a
/// frame.
pub fn encode_server_msg(m: &ServerToClientMsg) -> (r: Option<Vec<u8>>)
    ensures
        r is Some <==> server_body(m@).len() <= u32::MAX,
        r matches Some(b) ==> b@ == frame(server_body(m@)),
{
    let mut body: Vec<u8> = Vec::new();
    match m {
        ServerToClientMsg::Welcome => {
            body.push(0u8);
        },
        ServerToClientMsg::Pong => {
            body.push(1u8);
        },
        ServerToClientMsg::UserList { users } => {
            let ghost names = strings_view(users@);
            assert(m@ == ServerMsg::UserList(names));
            proof {
                lemma_strs_len(names);
            }
            if users.len() > u32::MAX as usize {
                return None;
            }
            body.push(2u8);
            push_be(&mut body, users.len() as u32);
            let ghost head = body@;
            let mut i: usize = 0;
            while i < users.len()
                invariant
                    i <= users@.len(),
                    users@.len() <= u32::MAX,
                    m@ == ServerMsg::UserList(names),
                    names == strings_view(users@),
                    enc_strs(names).len() >= 4 * names.len(),
                    forall|j: int|
                        0 <= j < names.len() ==> encode_utf8(#[trigger] names[j]).len() + 4
                            <= enc_strs(names).len(),
                    body@ == head + enc_strs(names.take(i as int)),
                    head == seq![2u8] + be_bytes(users@.len() as u32),
                decreases users@.len() - i,
            {
                if !push_str_field(&mut body, &users[i]) {
                    assert(encode_utf8(names[i as int]).len() > u32::MAX);
                    assert(server_body(m@).len() == 5 + enc_strs(names).len());
                    return None;
                }
                proof {
                    let t = names.take(i + 1);
                    assert(t.drop_last() =~= names.take(i as int));
                    assert(t.last() == users@[i as int]@);
                    assert(body@ =~= head + enc_strs(t));
                }
                i = i + 1;
            }
            assert(names.take(i as int) =~= names);
        },
        ServerToClientMsg::Message { from, message } => {
            body.push(3u8);
            if !push_str_field(&mut body, from) {
                return None;
            }
            if !push_str_field(&mut body, message) {
                return None;
            }
        },
        ServerToClientMsg::Error(text) => {
            body.push(4u8);
            if !push_str_field(&mut body, text) {
                return None;
            }
        },
    }
    assert(body@ =~= server_body(m@));
    frame_body(body)
}

/// Relies on `String::from_utf8`: it accepts exactly the byte vectors that are
/// valid UTF-8, and the string it returns is made of those bytes.
#[verifier::external_body]
fn string_from_utf8(bytes: Vec<u8>) -> (r: Option<String>)
    ensures
        r is Some <==> valid_utf8(bytes@),
        r matches Some(s) ==> encode_utf8(s@) == bytes@,
{
    String::from_utf8(bytes).ok()
}

fn read_u32(b: &[u8], pos: usize) -> (r: Option<(u32, usize)>)
    requires
        pos <= b@.len(),
    ensures
        parse_u32(b@.skip(pos as int)) == match r {
            Some((n, p)) => Some((n, b@.skip(p as int))),
            None => None,
        },
        r matches Some((n, p)) ==> pos <= p <= b@.len(),
{
    if b.len() - pos < 4 {
        return None;
    }
    let n = ((b[pos] as u32) << 24u32) | ((b[pos + 1] as u32) << 16u32) | ((b[pos + 2] as u32)
        << 8u32) | (b[pos + 3] as u32);
    assert(b@.skip(pos as int).skip(4) =~= b@.skip(pos + 4));
    Some((n, pos + 4))
}

fn read_str(b: &[u8], pos: usize) -> (r: Option<(String, usize)>)
    requires
        pos <= b@.len(),
    ensures
        parse_str(b@.skip(pos as int)) == match r {
            Some((s, p)) => Some((s@, b@.skip(p as int))),
            None => None,
        },
        r matches Some((s, p)) ==> pos <= p <= b@.len(),
{
    let (n, start) = match read_u32(b, pos) {
        Some(x) => x,
        None => return None,
    };
    let ghost r = b@.skip(start as int);
    if n as usize > b.len() - start {
        return None;
    }
    let end = start + n as usize;
    let mut v: Vec<u8> = Vec::new();
    let mut i = start;
    while i < end
        invariant
            start <= i <= end <= b@.len(),
            v@ == b@.subrange(start as int, i as int),
        decreases end - i,
    {
        v.push(b[i]);
        i = i + 1;
        assert(v@ =~= b@.subrange(start as int, i as int));
    }
    assert(v@ =~= r.take(n as int));
    assert(r.skip(n as int) =~= b@.skip(end as int));
    match string_from_utf8(v) {
        Some(s) => Some((s, end)),
        None => None,
    }
}

proof fn lemma_parse_strs_stays_none(b: Seq<u8>, j: nat, k: nat)
    requires
        j <= k,
        parse_strs(b, j) is None,
    ensures
        parse_strs(b, k) is None,
    decreases k - j,
{
    if j < k {
        lemma_parse_strs_stays_none(b, j, (k - 1) as nat);
    }
}

fn read_strs(b: &[u8], pos: usize, k: u32) -> (r: Option<(Vec<String>, usize)>)
    requires
        pos <= b@.len(),
    ensures
        parse_strs(b@.skip(pos as int), k as nat) == match r {
            Some((v, p)) => Some((strings_view(v@), b@.skip(p as int))),
            None => None,
        },
        r matches Some((v, p)) ==> pos <= p <= b@.len(),
{
    let ghost b0 = b@.skip(pos as int);
    let mut out: Vec<String> = Vec::new();
    let mut p = pos;
    let mut i: u32 = 0;
    assert(strings_view(out@) =~= seq![]);
    while i < k
        invariant
            i <= k,
            pos <= p <= b@.len(),
            b0 == b@.skip(pos as int),
            parse_strs(b0, i as nat) == Some((strings_view(out@), b@.skip(p as int))),
        decreases k - i,
    {
        match read_str(b, p) {
            Some((s, q)) => {
                let ghost before = out@;
                out.push(s);
                assert(strings_view(out@) =~= strings_view(before).push(s@));
                p = q;
                i = i + 1;
            },
            None => {
                proof {
                    lemma_parse_strs_stays_none(b0, (i + 1) as nat, k as nat);
                }
                return None;
            },
        }
    }
    Some((out, p))
}

/// Where the rest of `b` from `pos` holds exactly one string field: that string.
fn read_one_str(b: &[u8], pos: usize) -> (r: Option<String>)
    requires
        pos <= b@.len(),
    ensures
        parse_one_str(b@.skip(pos as int)) == match r {
            Some(s) => Some(s@),
            None => None,
        },
{
    match read_str(b, pos) {
        Some((s, p)) => if p == b.len() {
            Some(s)
        } else {
            None
        },
        None => None,
    }
}

/// Where the rest of `b` from `pos` holds exactly two string fields: those strings.
fn read_two_strs(b: &[u8], pos: usize) -> (r: Option<(String, String)>)
    requires
        pos <= b@.len(),
    ensures
        parse_two_strs(b@.skip(pos as int)) == match r {
            Some((s, t)) => Some((s@, t@)),
            None => None,
        },
{
    match read_str(b, pos) {
        Some((s, p)) => match read_one_str(b, p) {
            Some(t) => Some((s, t)),
            None => None,
        },
        None => None,
    }
}

/// The client message in the body that fills `b` from `pos` on.
fn read_client_body(b: &[u8], pos: usize) -> (r: Option<ClientToServerMsg>)
    requires
        pos <= b@.len(),
    ensures
        parse_client_body(b@.skip(pos as int)) == match r {
            Some(m) => Some(m@),
            None => None,
        },
{
    if pos == b.len() {
        return None;
    }
    let tag = b[pos];
    assert(b@.skip(pos as int).skip(1) =~= b@.skip(pos + 1));
    assert(b@.skip(pos as int)[0] == tag);
    if tag == 0 {
        match read_one_str(b, pos + 1) {
            Some(name) => Some(ClientToServerMsg::Join { name }),
            None => None,
        }
    } else if tag == 1 && pos + 1 == b.len() {
        Some(ClientToServerMsg::Ping)
    } else if tag == 2 && pos + 1 == b.len() {
        Some(ClientToServerMsg::ListUsers)
    } else if tag == 3 {
        match read_two_strs(b, pos + 1) {
            Some((to, message)) => Some(ClientToServerMsg::SendDM { to, message }),
            None => None,
        }
    } else if tag == 4 {
        match read_one_str(b, pos + 1) {
            Some(message) => Some(ClientToServerMsg::Broadcast { message }),
            None => None,
        }
    } else {
        None
    }
}

/// The server message in the body that fills `b` from `pos` on.
fn read_server_body(b: &[u8], pos: usize) -> (r: Option<ServerToClientMsg>)
    requires
        pos <= b@.len(),
    ensures
        parse_server_body(b@.skip(pos as int)) == match r {
            Some(m) => Some(m@),
            None => None,
        },
{
    if pos == b.len() {
        return None;
    }
    let tag = b[pos];
    assert(b@.skip(pos as int).skip(1) =~= b@.skip(pos + 1));
    assert(b@.skip(pos as int)[0] == tag);
    if tag == 0 && pos + 1 == b.len() {
        Some(ServerToClientMsg::Welcome)
    } else if tag == 1 && pos + 1 == b.len() {
        Some(ServerToClientMsg::Pong)
    } else if tag == 2 {
        match read_u32(b, pos + 1) {
            Some((k, p)) => match read_strs(b, p, k) {
                Some((users, q)) => if q == b.len() {
                    Some(ServerToClientMsg::UserList { users })
                } else {
                    None
                },
                None => None,
            },
            None => None,
        }
    } else if tag == 3 {
        match read_two_strs(b, pos + 1) {
            Some((from, message)) => Some(ServerToClientMsg::Message { from, message }),
            None => None,
        }
    } else if tag == 4 {
        match read_one_str(b, pos + 1) {
            Some(text) => Some(ServerToClientMsg::Error(text)),
            None => None,
        }
    } else {
        None
    }
}

/// What a [`FrameDecoder`] hands back for the bytes it holds.
#[derive(Debug, PartialEq, Eq)]
pub enum Decoded<M> {
    /// A whole message; its frame has left the buffer.
    Message(M),
    /// More bytes are needed before the next message is whole.
    Incomplete,
    /// The next frame is whole but holds no message of the protocol.
    Malformed,
}

/// Collects bytes as they arrive from a stream and hands out whole messages,
/// keeping what follows the last whole frame for the next call.
pub struct FrameDecoder {
    buf: Vec<u8>,
}

impl View for FrameDecoder {
    type V = Seq<u8>;

    closed spec fn view(&self) -> Seq<u8> {
        self.buf@
    }
}

impl FrameDecoder {
    pub fn new() -> (r: FrameDecoder)
        ensures
            r@ == Seq::<u8>::empty(),
    {
        FrameDecoder { buf: Vec::new() }
    }

    /// Appends bytes that were read from the stream.
    pub fn push_bytes(&mut self, bytes: &[u8])
        ensures
            final(self)@ == old(self)@ + bytes@,
    {
        let mut i: usize = 0;
        while i < bytes.len()
            invariant
                i <= bytes@.len(),
                self@ == old(self)@ + bytes@.take(i as int),
            decreases bytes@.len() - i,
        {
            self.buf.push(bytes[i]);
            i = i + 1;
            assert(self@ =~= old(self)@ + bytes@.take(i as int));
        }
        assert(bytes@.take(i as int) =~= bytes@);
    }

    /// Takes the first whole frame off the buffer, if there is one.
    fn take_frame(&mut self) -> (r: Option<Vec<u8>>)
        ensures
            match split_frame(old(self)@) {
                Some((body, rest)) => r matches Some(f) && f@.len() >= 4 && f@.skip(4) == body
                    && final(self)@ == rest,
                None => r is None && final(self)@ == old(self)@,
            },
    {
        let n = match read_u32(self.buf.as_slice(), 0) {
            Some((n, _)) => n,
            None => return None,
        };
        assert(self.buf@.skip(0) =~= self.buf@);
        if n as usize > self.buf.len() - 4 {
            return None;
        }
        let rest = self.buf.split_off(4 + n as usize);
        let frame = self.buf.split_off(0);
        self.buf = rest;
        assert(frame@.skip(4) =~= old(self)@.skip(4).take(n as int));
        assert(self@ =~= old(self)@.skip(4).skip(n as int));
        Some(frame)
    }

    /// The next message from a client, if its frame is whole.
    pub fn next_client_msg(&mut self) -> (r: Decoded<ClientToServerMsg>)
        ensures
            match decode_client(old(self)@) {
                Parsed::Incomplete => r is Incomplete && final(self)@ == old(self)@,
                Parsed::Malformed(rest) => r is Malformed && final(self)@ == rest,
                Parsed::Complete(m, rest) => r matches Decoded::Message(x) && x@ == m
                    && final(self)@ == rest,
            },
    {
        match self.take_frame() {
            Some(f) => match read_client_body(f.as_slice(), 4) {
                Some(m) => Decoded::Message(m),
                None => Decoded::Malformed,
            },
            None => Decoded::Incomplete,
        }
    }

    /// The next message from the server, if its frame is whole.
    pub fn next_server_msg(&mut self) -> (r: Decoded<ServerToClientMsg>)
        ensures
            match decode_server(old(self)@) {
                Parsed::Incomplete => r is Incomplete && final(self)@ == old(self)@,
                Parsed::Malformed(rest) => r is Malformed && final(self)@ == rest,
                Parsed::Complete(m, rest) => r matches Decoded::Message(x) && x@ == m
                    && final(self)@ == rest,
            },
    {
        match self.take_frame() {
            Some(f) => match read_server_body(f.as_slice(), 4) {
                Some(m) => Decoded::Message(m),
                None => Decoded::Malformed,
            },
            None => Decoded::Incomplete,
        }
    }
}

/// Decoding the frame of a client message yields that message, and leaves
/// whatever bytes followed the frame.
pub proof fn lemma_client_round_trip(m: ClientMsg, rest: Seq<u8>)
    requires
        client_body(m).len() <= u32::MAX,
    ensures
        decode_client(frame(client_body(m)) + rest) == Parsed::Complete(m, rest),
{
    lemma_frame_split(client_body(m), rest);
    lemma_client_body_round_trip(m);
}

/// When the frame of a client message arrives in two reads, the bytes of the
/// first read alone are not yet a message, and the two together yield it.
pub proof fn lemma_client_split_reads(m: ClientMsg, k: int)
    requires
        client_body(m).len() <= u32::MAX,
        0 <= k <= frame(client_body(m)).len(),
    ensures
        k < frame(client_body(m)).len() ==> decode_client(frame(client_body(m)).take(k))
            == Parsed::<ClientMsg>::Incomplete,
        decode_client(frame(client_body(m)).take(k) + frame(client_body(m)).skip(k))
            == Parsed::Complete(m, Seq::<u8>::empty()),
{
    let f = frame(client_body(m));
    if k < f.len() {
        lemma_frame_prefix_incomplete(client_body(m), k);
    }
    assert(f.take(k) + f.skip(k) =~= f + Seq::<u8>::empty());
    lemma_client_round_trip(m, Seq::<u8>::empty());
}

/// Decoding the frame of a server message yields that message, and leaves
/// whatever bytes followed the frame.
pub proof fn lemma_server_round_trip(m: ServerMsg, rest: Seq<u8>)
    requires
        server_body(m).len() <= u32::MAX,
    ensures
        decode_server(frame(server_body(m)) + rest) == Parsed::Complete(m, rest),
{
    lemma_frame_split(server_body(m), rest);
    lemma_server_body_round_trip(m);
}

/// When the frame of a server message arrives in two reads, the bytes of the
/// first read alone are not yet a message, and the two together yield it.
pub proof fn lemma_server_split_reads(m: ServerMsg, k: int)
    requires
        server_body(m).len() <= u32::MAX,
        0 <= k <= frame(server_body(m)).len(),
    ensures
        k < frame(server_body(m)).len() ==> decode_server(frame(server_body(m)).take(k))
            == Parsed::<ServerMsg>::Incomplete,
        decode_server(frame(server_body(m)).take(k) + frame(server_body(m)).skip(k))
            == Parsed::Complete(m, Seq::<u8>::empty()),
{
    let f = frame(server_body(m));
    if k < f.len() {
        lemma_frame_prefix_incomplete(server_body(m), k);
    }
    assert(f.take(k) + f.skip(k) =~= f + Seq::<u8>::empty());
    lemma_server_round_trip(m, Seq::<u8>::empty());
}

} // verus!
