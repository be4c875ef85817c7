//! The messages of the chat protocol, in both directions.
use vstd::prelude::*;

verus! {

/// A message that a client sends to the server.
#[derive(Debug, Clone, PartialEq, Eq)]
pub enum ClientToServerMsg {
    Join { name: String },
    Ping,
    ListUsers,
    SendDM { to: String, message: String },
    Broadcast { message: String },
}

/// A message that the server sends to a client.
#[derive(Debug, Clone, PartialEq, Eq)]
pub enum ServerToClientMsg {
    Welcome,
    Pong,
    UserList { users: Vec<String> },
    Message { from: String, message: String },
    Error(String),
}

/// The contents of a [`ClientToServerMsg`], with strings as character sequences.
pub enum ClientMsg {
    Join(Seq<char>),
    Ping,
    ListUsers,
    SendDM(Seq<char>, Seq<char>),
    Broadcast(Seq<char>),
}

/// The contents of a [`ServerToClientMsg`], with strings as character sequences.
pub enum ServerMsg {
    Welcome,
    Pong,
    UserList(Seq<Seq<char>>),
    Message(Seq<char>, Seq<char>),
    Error(Seq<char>),
}

/// The characters of each string in `v`.
pub open spec fn strings_view(v: Seq<String>) -> Seq<Seq<char>> {
    v.map_values(|s: String| s@)
}

impl View for ClientToServerMsg {
    type V = ClientMsg;

    open spec fn view(&self) -> ClientMsg {
        match self {
            ClientToServerMsg::Join { name } => ClientMsg::Join(name@),
            ClientToServerMsg::Ping => ClientMsg::Ping,
            ClientToServerMsg::ListUsers => ClientMsg::ListUsers,
            ClientToServerMsg::SendDM { to, message } => ClientMsg::SendDM(to@, message@),
            ClientToServerMsg::Broadcast { message } => ClientMsg::Broadcast(message@),
        }
    }
}

impl View for ServerToClientMsg {
    type V = ServerMsg;

    open spec fn view(&self) -> ServerMsg {
        match self {
            ServerToClientMsg::Welcome => ServerMsg::Welcome,
            ServerToClientMsg::Pong => ServerMsg::Pong,
            ServerToClientMsg::UserList { users } => ServerMsg::UserList(strings_view(users@)),
            ServerToClientMsg::Message { from, message } => ServerMsg::Message(from@, message@),
            ServerToClientMsg::Error(text) => ServerMsg::Error(text@),
        }
    }
}

} // verus!
