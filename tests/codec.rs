use chat_server::codec::{encode_client_msg, encode_server_msg, Decoded, FrameDecoder};
use chat_server::message::{ClientToServerMsg, ServerToClientMsg};

fn client_messages() -> Vec<ClientToServerMsg> {
    vec![
        ClientToServerMsg::Join { name: "alice".to_string() },
        ClientToServerMsg::Ping,
        ClientToServerMsg::ListUsers,
        ClientToServerMsg::SendDM { to: "bob".to_string(), message: "hi there".to_string() },
        ClientToServerMsg::Broadcast { message: "héllo, wörld ✓".to_string() },
        ClientToServerMsg::Join { name: String::new() },
    ]
}

fn server_messages() -> Vec<ServerToClientMsg> {
    vec![
        ServerToClientMsg::Welcome,
        ServerToClientMsg::Pong,
        ServerToClientMsg::UserList { users: vec![] },
        ServerToClientMsg::UserList { users: vec!["alice".to_string(), "bob".to_string(), "ča".to_string()] },
        ServerToClientMsg::Message { from: "alice".to_string(), message: "hi".to_string() },
        ServerToClientMsg::Error("User does not exist".to_string()),
    ]
}

#[test]
fn client_frame_layout() {
    let bytes = encode_client_msg(&ClientToServerMsg::Join { name: "ab".to_string() }).unwrap();
    assert_eq!(bytes, vec![0, 0, 0, 7, 0, 0, 0, 0, 2, b'a', b'b']);
    let bytes = encode_client_msg(&ClientToServerMsg::Ping).unwrap();
    assert_eq!(bytes, vec![0, 0, 0, 1, 1]);
}

#[test]
fn server_frame_layout() {
    let bytes = encode_server_msg(&ServerToClientMsg::UserList { users: vec!["x".to_string()] }).unwrap();
    assert_eq!(bytes, vec![0, 0, 0, 10, 2, 0, 0, 0, 1, 0, 0, 0, 1, b'x']);
}

#[test]
fn client_round_trip_every_variant() {
    for m in client_messages() {
        let bytes = encode_client_msg(&m).unwrap();
        let mut d = FrameDecoder::new();
        d.push_bytes(&bytes);
        assert_eq!(d.next_client_msg(), Decoded::Message(m));
        assert_eq!(d.next_client_msg(), Decoded::Incomplete);
    }
}

#[test]
fn server_round_trip_every_variant() {
    for m in server_messages() {
        let bytes = encode_server_msg(&m).unwrap();
        let mut d = FrameDecoder::new();
        d.push_bytes(&bytes);
        assert_eq!(d.next_server_msg(), Decoded::Message(m));
        assert_eq!(d.next_server_msg(), Decoded::Incomplete);
    }
}

#[test]
fn round_trip_split_into_two_reads() {
    for m in client_messages() {
        let bytes = encode_client_msg(&m).unwrap();
        for k in 0..bytes.len() {
            let mut d = FrameDecoder::new();
            d.push_bytes(&bytes[..k]);
            assert_eq!(d.next_client_msg(), Decoded::Incomplete);
            d.push_bytes(&bytes[k..]);
            assert_eq!(d.next_client_msg(), Decoded::Message(m.clone()));
        }
    }
    for m in server_messages() {
        let bytes = encode_server_msg(&m).unwrap();
        for k in 0..bytes.len() {
            let mut d = FrameDecoder::new();
            d.push_bytes(&bytes[..k]);
            assert_eq!(d.next_server_msg(), Decoded::Incomplete);
            d.push_bytes(&bytes[k..]);
            assert_eq!(d.next_server_msg(), Decoded::Message(m.clone()));
        }
    }
}

#[test]
fn concatenated_frames_in_one_read() {
    let mut bytes = Vec::new();
    for m in client_messages() {
        bytes.extend(encode_client_msg(&m).unwrap());
    }
    let mut d = FrameDecoder::new();
    d.push_bytes(&bytes);
    for m in client_messages() {
        assert_eq!(d.next_client_msg(), Decoded::Message(m));
    }
    assert_eq!(d.next_client_msg(), Decoded::Incomplete);
}

#[test]
fn unknown_variant_is_malformed() {
    let mut d = FrameDecoder::new();
    d.push_bytes(&[0, 0, 0, 1, 9]);
    d.push_bytes(&encode_client_msg(&ClientToServerMsg::Ping).unwrap());
    assert_eq!(d.next_client_msg(), Decoded::Malformed);
    assert_eq!(d.next_client_msg(), Decoded::Message(ClientToServerMsg::Ping));
}

#[test]
fn trailing_bytes_in_body_are_malformed() {
    let mut d = FrameDecoder::new();
    d.push_bytes(&[0, 0, 0, 2, 1, 0]);
    assert_eq!(d.next_client_msg(), Decoded::Malformed);
}

#[test]
fn empty_body_is_malformed() {
    let mut d = FrameDecoder::new();
    d.push_bytes(&[0, 0, 0, 0]);
    assert_eq!(d.next_server_msg(), Decoded::Malformed);
}

#[test]
fn invalid_utf8_is_malformed() {
    let mut d = FrameDecoder::new();
    d.push_bytes(&[0, 0, 0, 7, 0, 0, 0, 0, 2, 0xff, 0xfe]);
    assert_eq!(d.next_client_msg(), Decoded::Malformed);
}

#[test]
fn decoded_name_matches_its_bytes() {
    let mut d = FrameDecoder::new();
    d.push_bytes(&[0, 0, 0, 8, 0, 0, 0, 0, 3, 0xc3, 0xa9, b'x']);
    assert_eq!(d.next_client_msg(), Decoded::Message(ClientToServerMsg::Join { name: "éx".to_string() }));
}

#[test]
fn string_length_past_body_is_malformed() {
    let mut d = FrameDecoder::new();
    d.push_bytes(&[0, 0, 0, 6, 4, 0, 0, 0, 9, b'a']);
    assert_eq!(d.next_client_msg(), Decoded::Malformed);
}
