use vstd::prelude::*;

use crate::frame::{Frame, FrameV};
use crate::route::{route, route_spec};

verus! {

/// Where a client connection stands.
#[derive(Clone, Copy, Debug, PartialEq, Eq)]
pub enum ClientState {
    Authenticating,
    Ready,
    Closed,
}

/// What the client task does next with one command.
#[derive(Debug)]
pub enum Action {
    /// Answer the client directly.
    Reply(Frame),
    /// Hand the command to the session of this shard and relay its reply.
    Forward(usize),
    /// Write this error frame, then close the connection.
    Close(Frame),
}

pub enum ActionV {
    Reply(FrameV),
    Forward(nat),
    Close(FrameV),
}

impl Action {
    pub open spec fn view(&self) -> ActionV {
        match self {
            Action::Reply(f) => ActionV::Reply(f@),
            Action::Forward(k) => ActionV::Forward(*k as nat),
            Action::Close(f) => ActionV::Close(f@),
        }
    }
}

pub open spec fn ascii_lower(b: u8) -> u8 {
    if 65 <= b <= 90 { (b + 32) as u8 } else { b }
}

/// `name` spells AUTH, in any case.
pub open spec fn is_auth_name(name: Seq<u8>) -> bool {
    name.len() == 4 && ascii_lower(name[0]) == 97u8 && ascii_lower(name[1]) == 117u8
        && ascii_lower(name[2]) == 116u8 && ascii_lower(name[3]) == 104u8
}

/// The password of an `AUTH <password>` command.
pub open spec fn auth_password(cmd: FrameV) -> Option<Seq<u8>> {
    match cmd {
        FrameV::Array(items) => if items.len() == 2 {
            match (items[0], items[1]) {
                (FrameV::Bulk(name), FrameV::Bulk(pw)) => if is_auth_name(name) {
                    Some(pw)
                } else {
                    None
                },
                _ => None,
            }
        } else {
            None
        },
        _ => None,
    }
}

pub open spec fn ok_text() -> Seq<char> {
    "OK"@
}

pub open spec fn noauth_text() -> Seq<char> {
    "NOAUTH Authentication required"@
}

pub open spec fn badpass_text() -> Seq<char> {
    "ERR invalid password"@
}

pub open spec fn closed_text() -> Seq<char> {
    "ERR connection closed"@
}

/// The decision for one command: a client must present the configured token
/// with AUTH before anything else is honoured; after that every command goes
/// to its shard.
pub open spec fn decide_spec(state: ClientState, cmd: FrameV, token: Seq<u8>, n: nat) -> (
    ClientState,
    ActionV,
) {
    match state {
        ClientState::Authenticating => match auth_password(cmd) {
            Some(pw) => if pw == token {
                (ClientState::Ready, ActionV::Reply(FrameV::Simple(ok_text())))
            } else {
                (ClientState::Closed, ActionV::Close(FrameV::Error(badpass_text())))
            },
            None => (ClientState::Closed, ActionV::Close(FrameV::Error(noauth_text()))),
        },
        ClientState::Ready => match auth_password(cmd) {
            Some(pw) => if pw == token {
                (ClientState::Ready, ActionV::Reply(FrameV::Simple(ok_text())))
            } else {
                (ClientState::Ready, ActionV::Reply(FrameV::Error(badpass_text())))
            },
            None => (ClientState::Ready, ActionV::Forward(route_spec(cmd, n))),
        },
        ClientState::Closed => (ClientState::Closed, ActionV::Close(FrameV::Error(closed_text()))),
    }
}

fn lower(b: u8) -> (r: u8)
    ensures
        r == ascii_lower(b),
{
    if 65 <= b && b <= 90 { b + 32 } else { b }
}

fn same_bytes(a: &[u8], b: &[u8]) -> (r: bool)
    ensures
        r == (a@ == b@),
{
    if a.len() != b.len() {
        return false;
    }
    let mut i: usize = 0;
    while i < a.len()
        invariant
            a@.len() == b@.len(),
            i <= a@.len(),
            forall|j: int| 0 <= j < i ==> a@[j] == b@[j],
        decreases a@.len() - i,
    {
        if a[i] != b[i] {
            return false;
        }
        i = i + 1;
    }
    assert(a@ =~= b@);
    true
}

/// The password when `cmd` is an AUTH command.
fn auth_password_of(cmd: &Frame) -> (r: Option<&[u8]>)
    ensures
        match auth_password(cmd@) {
            Some(pw) => r matches Some(x) && x@ == pw,
            None => r is None,
        },
{
    match cmd {
        Frame::Array(items) => {
            if items.len() == 2 {
                assert(cmd@->Array_0[0] == items@[0]@);
                assert(cmd@->Array_0[1] == items@[1]@);
                match (&items[0], &items[1]) {
                    (Frame::Bulk(name), Frame::Bulk(pw)) => {
                        if name.len() == 4 && lower(name[0]) == 97u8 && lower(name[1]) == 117u8
                            && lower(name[2]) == 116u8 && lower(name[3]) == 104u8 {
                            Some(pw.as_slice())
                        } else {
                            None
                        }
                    },
                    _ => None,
                }
            } else {
                None
            }
        },
        _ => None,
    }
}

fn text_frame(error: bool, t: &str) -> (r: Frame)
    ensures
        r@ == (if error { FrameV::Error(t@) } else { FrameV::Simple(t@) }),
{
    if error {
        Frame::Error(String::from_str(t))
    } else {
        Frame::SImple(String::from_str(t))
    }
}

/// Decides what to do with one command of a client, and where the client stands after it.
pub fn decide(state: ClientState, cmd: &Frame, token: &[u8], n: usize) -> (r: (ClientState, Action))
    requires
        n > 0,
    ensures
        (r.0, r.1@) == decide_spec(state, cmd@, token@, n as nat),
{
    proof {
        reveal_strlit("OK");
        reveal_strlit("NOAUTH Authentication required");
        reveal_strlit("ERR invalid password");
        reveal_strlit("ERR connection closed");
    }
    match state {
        ClientState::Authenticating => match auth_password_of(cmd) {
            Some(pw) => if same_bytes(pw, token) {
                (ClientState::Ready, Action::Reply(text_frame(false, "OK")))
            } else {
                (ClientState::Closed, Action::Close(text_frame(true, "ERR invalid password")))
            },
            None => (ClientState::Closed, Action::Close(text_frame(true, "NOAUTH Authentication required"))),
        },
        ClientState::Ready => match auth_password_of(cmd) {
            Some(pw) => if same_bytes(pw, token) {
                (ClientState::Ready, Action::Reply(text_frame(false, "OK")))
            } else {
                (ClientState::Ready, Action::Reply(text_frame(true, "ERR invalid password")))
            },
            None => (ClientState::Ready, Action::Forward(route(cmd, n))),
        },
        ClientState::Closed => (ClientState::Closed, Action::Close(text_frame(true, "ERR connection closed"))),
    }
}

} // verus!
